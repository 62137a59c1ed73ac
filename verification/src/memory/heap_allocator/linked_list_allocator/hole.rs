//! The list of free blocks ("holes") of a heap, ordered by address.

use vstd::prelude::*;
use crate::memory::{lemma_align_up_properties, spec_align_up};
use crate::memory::heap_allocator::{AllocErr, Layout};

verus! {

/// The smallest block that can be free: a free block holds its own size and
/// the link to the next one.
pub const MIN_SIZE: usize = 16;

/// A free block.
#[derive(Debug, Clone, Copy, PartialEq, Eq, Structural)]
pub struct HoleInfo {
    /// Address of the block's first byte.
    pub addr: usize,
    /// Number of bytes in the block.
    pub size: usize,
}

impl HoleInfo {
    /// Address behind the block's last byte.
    pub open spec fn end(self) -> int {
        self.addr + self.size
    }

    /// Whether the byte at `byte` belongs to the block.
    pub open spec fn holds(self, byte: int) -> bool {
        self.addr <= byte < self.end()
    }
}

/// Whether `holes` is a list of free blocks as a heap keeps it: every block
/// has at least the smallest size and ends inside the address space, and
/// each block lies above the one before it with at least one byte between
/// the two, so that the blocks are ordered, do not overlap, and no two of
/// them could be one.
pub open spec fn well_formed(holes: Seq<HoleInfo>) -> bool {
    &&& forall|i: int|
        0 <= i < holes.len() ==> (#[trigger] holes[i]).size >= MIN_SIZE && holes[i].end()
            <= usize::MAX
    &&& forall|i: int, j: int|
        0 <= i < j < holes.len() ==> (#[trigger] holes[i]).end() < (#[trigger] holes[j]).addr
}

/// Whether the byte at `byte` is free.
pub open spec fn is_free(holes: Seq<HoleInfo>, byte: int) -> bool {
    exists|i: int| 0 <= i < holes.len() && (#[trigger] holes[i]).holds(byte)
}

/// Whether no byte of the block of `size` bytes at `addr` is free.
pub open spec fn is_used(holes: Seq<HoleInfo>, addr: int, size: int) -> bool {
    forall|i: int|
        0 <= i < holes.len() ==> (#[trigger] holes[i]).end() <= addr || addr + size <= holes[i].addr
}

/// Number of free bytes.
pub open spec fn total(holes: Seq<HoleInfo>) -> int
    decreases holes.len(),
{
    if holes.len() == 0 {
        0
    } else {
        total(holes.drop_last()) + holes.last().size
    }
}

/// Number of blocks that start below `addr`: the place in the list where a
/// block at `addr` belongs.
pub open spec fn position(holes: Seq<HoleInfo>, addr: int) -> int
    decreases holes.len(),
{
    if holes.len() == 0 {
        0
    } else if holes.last().addr < addr {
        holes.len() as int
    } else {
        position(holes.drop_last(), addr)
    }
}

/// In a well-formed list the place of an address is the one index with all
/// blocks before it below the address and none of the others.
pub proof fn lemma_position(holes: Seq<HoleInfo>, addr: int, k: int)
    requires
        well_formed(holes),
        0 <= k <= holes.len(),
        forall|i: int| 0 <= i < k ==> (#[trigger] holes[i]).addr < addr,
        forall|i: int| k <= i < holes.len() ==> (#[trigger] holes[i]).addr >= addr,
    ensures
        position(holes, addr) == k,
    decreases holes.len(),
{
    if holes.len() > 0 {
        if holes.last().addr < addr {
            assert(k == holes.len()) by {
                if k < holes.len() {
                    assert(holes[holes.len() - 1].addr >= addr);
                }
            }
        } else {
            assert(k < holes.len()) by {
                if k == holes.len() {
                    assert(holes[holes.len() - 1].addr < addr);
                }
            }
            lemma_position(holes.drop_last(), addr, k);
        }
    }
}

/// Putting a block into the list adds its size to the free bytes.
pub proof fn lemma_total_insert(holes: Seq<HoleInfo>, k: int, hole: HoleInfo)
    requires
        0 <= k <= holes.len(),
    ensures
        total(holes.insert(k, hole)) == total(holes) + hole.size,
    decreases holes.len(),
{
    let after = holes.insert(k, hole);
    if k == holes.len() {
        assert(after.drop_last() =~= holes);
    } else {
        assert(after.drop_last() =~= holes.drop_last().insert(k, hole));
        lemma_total_insert(holes.drop_last(), k, hole);
    }
}

/// Taking a block out of the list takes its size from the free bytes.
pub proof fn lemma_total_remove(holes: Seq<HoleInfo>, k: int)
    requires
        0 <= k < holes.len(),
    ensures
        total(holes.remove(k)) == total(holes) - holes[k].size,
    decreases holes.len(),
{
    let after = holes.remove(k);
    if k == holes.len() - 1 {
        assert(after =~= holes.drop_last());
    } else {
        assert(after.drop_last() =~= holes.drop_last().remove(k));
        lemma_total_remove(holes.drop_last(), k);
    }
}

/// Changing a block changes the free bytes by the change of its size.
pub proof fn lemma_total_update(holes: Seq<HoleInfo>, k: int, hole: HoleInfo)
    requires
        0 <= k < holes.len(),
    ensures
        total(holes.update(k, hole)) == total(holes) - holes[k].size + hole.size,
    decreases holes.len(),
{
    let after = holes.update(k, hole);
    if k == holes.len() - 1 {
        assert(after.drop_last() =~= holes.drop_last());
    } else {
        assert(after.drop_last() =~= holes.drop_last().update(k, hole));
        lemma_total_update(holes.drop_last(), k, hole);
    }
}

/// The number of free bytes is not negative.
pub proof fn lemma_total_not_negative(holes: Seq<HoleInfo>)
    ensures
        total(holes) >= 0,
    decreases holes.len(),
{
    if holes.len() > 0 {
        lemma_total_not_negative(holes.drop_last());
    }
}

/// No block is larger than all free bytes together.
pub proof fn lemma_total_bounds(holes: Seq<HoleInfo>, k: int)
    requires
        0 <= k < holes.len(),
    ensures
        holes[k].size <= total(holes),
    decreases holes.len(),
{
    lemma_total_not_negative(holes.drop_last());
    if k < holes.len() - 1 {
        lemma_total_bounds(holes.drop_last(), k);
    }
}

/// A well-formed list is known by its free bytes: two lists with the same
/// free bytes are the same list.
pub proof fn lemma_same_free_same_list(a: Seq<HoleInfo>, b: Seq<HoleInfo>)
    requires
        well_formed(a),
        well_formed(b),
        forall|byte: int| is_free(a, byte) == is_free(b, byte),
    ensures
        a == b,
    decreases a.len(),
{
    if a.len() == 0 {
        if b.len() > 0 {
            assert(b[0].holds(b[0].addr as int));
            assert(is_free(b, b[0].addr as int));
            assert(is_free(a, b[0].addr as int));
        }
        assert(a =~= b);
    } else {
        assert(a[0].holds(a[0].addr as int));
        assert(is_free(a, a[0].addr as int));
        assert(is_free(b, a[0].addr as int));
        assert(b.len() > 0);
        assert(b[0].holds(b[0].addr as int));
        assert(is_free(b, b[0].addr as int));
        assert(is_free(a, b[0].addr as int));
        // The first blocks start at the lowest free byte.
        lemma_first_is_lowest(a, b[0].addr as int);
        lemma_first_is_lowest(b, a[0].addr as int);
        assert(a[0].addr == b[0].addr);
        // And they end at the first byte above it that is not free.
        lemma_first_run(a, b);
        lemma_first_run(b, a);
        assert(a[0].size == b[0].size);
        let rest_a = a.skip(1);
        let rest_b = b.skip(1);
        assert forall|byte: int| is_free(rest_a, byte) == is_free(rest_b, byte) by {
            lemma_free_in_rest(a, byte);
            lemma_free_in_rest(b, byte);
        }
        lemma_same_free_same_list(rest_a, rest_b);
        assert(a =~= seq![a[0]] + rest_a);
        assert(b =~= seq![b[0]] + rest_b);
    }
}

/// No byte below the first block of a well-formed list is free.
pub proof fn lemma_first_is_lowest(holes: Seq<HoleInfo>, byte: int)
    requires
        well_formed(holes),
        is_free(holes, byte),
    ensures
        holes.len() > 0,
        holes[0].addr <= byte,
{
    let i = choose|i: int| 0 <= i < holes.len() && (#[trigger] holes[i]).holds(byte);
    if i > 0 {
        assert(holes[0].end() < holes[i].addr);
    }
}

/// Of two well-formed lists with the same free bytes and the same first
/// address, the first block of the one is not longer than that of the other.
pub proof fn lemma_first_run(a: Seq<HoleInfo>, b: Seq<HoleInfo>)
    requires
        well_formed(a),
        well_formed(b),
        a.len() > 0,
        b.len() > 0,
        a[0].addr == b[0].addr,
        forall|byte: int| is_free(a, byte) == is_free(b, byte),
    ensures
        a[0].end() <= b[0].end(),
{
    if a[0].end() > b[0].end() {
        let byte = b[0].end();
        assert(a[0].holds(byte));
        assert(is_free(a, byte));
        assert(is_free(b, byte));
        let i = choose|i: int| 0 <= i < b.len() && (#[trigger] b[i]).holds(byte);
        assert(i > 0);
        assert(b[0].end() < b[i].addr);
    }
}

/// The bytes that are free in a well-formed list without its first block
/// are the free bytes that do not belong to that block.
pub proof fn lemma_free_in_rest(holes: Seq<HoleInfo>, byte: int)
    requires
        well_formed(holes),
        holes.len() > 0,
    ensures
        well_formed(holes.skip(1)),
        is_free(holes.skip(1), byte) == (is_free(holes, byte) && !holes[0].holds(byte)),
{
    let rest = holes.skip(1);
    assert forall|i: int, j: int| 0 <= i < j < rest.len() implies (#[trigger] rest[i]).end() < (
    #[trigger] rest[j]).addr by {
        assert(holes[i + 1].end() < holes[j + 1].addr);
    }
    if is_free(rest, byte) {
        let i = choose|i: int| 0 <= i < rest.len() && (#[trigger] rest[i]).holds(byte);
        assert(holes[i + 1].holds(byte));
        assert(holes[0].end() < holes[i + 1].addr);
    }
    if is_free(holes, byte) && !holes[0].holds(byte) {
        let i = choose|i: int| 0 <= i < holes.len() && (#[trigger] holes[i]).holds(byte);
        assert(rest[i - 1].holds(byte));
    }
}

/// The place of an address splits a well-formed list: the blocks before
/// it start below the address, the others do not.
pub proof fn lemma_position_splits(holes: Seq<HoleInfo>, addr: int)
    requires
        well_formed(holes),
    ensures
        0 <= position(holes, addr) <= holes.len(),
        forall|i: int| 0 <= i < position(holes, addr) ==> (#[trigger] holes[i]).addr < addr,
        forall|i: int|
            position(holes, addr) <= i < holes.len() ==> (#[trigger] holes[i]).addr >= addr,
    decreases holes.len(),
{
    if holes.len() > 0 {
        let front = holes.drop_last();
        if holes.last().addr < addr {
            assert forall|i: int| 0 <= i < holes.len() implies (#[trigger] holes[i]).addr
                < addr by {
                if i < holes.len() - 1 {
                    assert(holes[i].end() < holes[holes.len() - 1].addr);
                }
            }
        } else {
            lemma_position_splits(front, addr);
            assert forall|i: int| position(holes, addr) <= i < holes.len() implies (
            #[trigger] holes[i]).addr >= addr by {
                if i < holes.len() - 1 {
                    assert(front[i].addr >= addr);
                }
            }
            assert forall|i: int| 0 <= i < position(holes, addr) implies (#[trigger] holes[i]).addr
                < addr by {
                assert(front[i].addr < addr);
            }
        }
    }
}

/// The list after the block of `size` bytes at `addr` became free: the
/// block goes to its place in the order of addresses, and a block that ends
/// where it starts, or starts where it ends, becomes one block with it.
pub open spec fn released(holes: Seq<HoleInfo>, addr: int, size: int) -> Seq<HoleInfo> {
    let k = position(holes, addr);
    let joins_lower = k > 0 && holes[k - 1].end() == addr;
    let joins_upper = k < holes.len() && addr + size == holes[k].addr;
    if joins_lower && joins_upper {
        holes.update(
            k - 1,
            HoleInfo {
                addr: holes[k - 1].addr,
                size: (holes[k - 1].size + size + holes[k].size) as usize,
            },
        ).remove(k)
    } else if joins_lower {
        holes.update(
            k - 1,
            HoleInfo { addr: holes[k - 1].addr, size: (holes[k - 1].size + size) as usize },
        )
    } else if joins_upper {
        holes.update(k, HoleInfo { addr: addr as usize, size: (size + holes[k].size) as usize })
    } else {
        holes.insert(k, HoleInfo { addr: addr as usize, size: size as usize })
    }
}

/// Whether `hole` can be a block of the list: it has at least the smallest
/// size and ends inside the address space.
pub open spec fn is_block(hole: HoleInfo) -> bool {
    hole.size >= MIN_SIZE && hole.end() <= usize::MAX
}

/// A block that is put between two blocks, with a byte between it and each
/// of them, leaves the list well formed and adds its bytes to the free ones.
pub proof fn lemma_insert_block(holes: Seq<HoleInfo>, k: int, block: HoleInfo)
    requires
        well_formed(holes),
        is_block(block),
        0 <= k <= holes.len(),
        k > 0 ==> holes[k - 1].end() < block.addr,
        k < holes.len() ==> block.end() < holes[k].addr,
    ensures
        well_formed(holes.insert(k, block)),
        forall|byte: int| #[trigger]
            is_free(holes.insert(k, block), byte) == (is_free(holes, byte) || block.holds(byte)),
        total(holes.insert(k, block)) == total(holes) + block.size,
{
    let after = holes.insert(k, block);
    lemma_total_insert(holes, k, block);
    assert forall|i: int| 0 <= i < after.len() implies #[trigger] after[i] == (if i < k {
        holes[i]
    } else if i == k {
        block
    } else {
        holes[i - 1]
    }) by {}
    assert forall|i: int, j: int| 0 <= i < j < after.len() implies (#[trigger] after[i]).end() < (
    #[trigger] after[j]).addr by {
        if j < k {
            assert(holes[i].end() < holes[j].addr);
        } else if j == k {
            if i < k - 1 {
                assert(holes[i].end() < holes[k - 1].addr);
            }
        } else if i < k {
            assert(holes[i].end() < holes[j - 1].addr);
        } else if i == k {
            if j - 1 > k {
                assert(holes[k].end() < holes[j - 1].addr);
            }
        } else {
            assert(holes[i - 1].end() < holes[j - 1].addr);
        }
    }
    assert forall|byte: int| #[trigger] is_free(after, byte) == (is_free(holes, byte)
        || block.holds(byte)) by {
        if is_free(after, byte) {
            let i = choose|i: int| 0 <= i < after.len() && (#[trigger] after[i]).holds(byte);
            if i < k {
                assert(holes[i].holds(byte));
            } else if i > k {
                assert(holes[i - 1].holds(byte));
            }
        }
        if is_free(holes, byte) {
            let i = choose|i: int| 0 <= i < holes.len() && (#[trigger] holes[i]).holds(byte);
            if i < k {
                assert(after[i].holds(byte));
            } else {
                assert(after[i + 1].holds(byte));
            }
        }
        if block.holds(byte) {
            assert(after[k].holds(byte));
        }
    }
}

/// A block that grows, with a byte still between it and its neighbours,
/// leaves the list well formed and adds the bytes it gains to the free ones.
pub proof fn lemma_widen_block(holes: Seq<HoleInfo>, k: int, wider: HoleInfo)
    requires
        well_formed(holes),
        is_block(wider),
        0 <= k < holes.len(),
        wider.addr <= holes[k].addr,
        holes[k].end() <= wider.end(),
        k > 0 ==> holes[k - 1].end() < wider.addr,
        k + 1 < holes.len() ==> wider.end() < holes[k + 1].addr,
    ensures
        well_formed(holes.update(k, wider)),
        forall|byte: int| #[trigger]
            is_free(holes.update(k, wider), byte) == (is_free(holes, byte) || wider.holds(byte)),
        total(holes.update(k, wider)) == total(holes) - holes[k].size + wider.size,
{
    let after = holes.update(k, wider);
    lemma_total_update(holes, k, wider);
    assert forall|i: int, j: int| 0 <= i < j < after.len() implies (#[trigger] after[i]).end() < (
    #[trigger] after[j]).addr by {
        if j == k {
            if i < k - 1 {
                assert(holes[i].end() < holes[k - 1].addr);
            }
        } else if i == k {
            if j > k + 1 {
                assert(holes[k + 1].end() < holes[j].addr);
            }
        } else {
            assert(holes[i].end() < holes[j].addr);
        }
    }
    assert forall|byte: int| #[trigger] is_free(after, byte) == (is_free(holes, byte)
        || wider.holds(byte)) by {
        if is_free(after, byte) {
            let i = choose|i: int| 0 <= i < after.len() && (#[trigger] after[i]).holds(byte);
            if i != k {
                assert(holes[i].holds(byte));
            }
        }
        if is_free(holes, byte) {
            let i = choose|i: int| 0 <= i < holes.len() && (#[trigger] holes[i]).holds(byte);
            assert(after[i].holds(byte));
        }
        if wider.holds(byte) {
            assert(after[k].holds(byte));
        }
    }
}

/// Two neighbours that become one block, from the start of the lower to
/// the end of the upper, leave the list well formed and add the bytes
/// between them to the free ones.
pub proof fn lemma_join_blocks(holes: Seq<HoleInfo>, k: int, joined: HoleInfo)
    requires
        well_formed(holes),
        0 < k < holes.len(),
        joined.addr == holes[k - 1].addr,
        joined.end() == holes[k].end(),
    ensures
        well_formed(holes.update(k - 1, joined).remove(k)),
        forall|byte: int| #[trigger]
            is_free(holes.update(k - 1, joined).remove(k), byte) == (is_free(holes, byte)
                || joined.holds(byte)),
        total(holes.update(k - 1, joined).remove(k)) == total(holes) - holes[k - 1].size
            - holes[k].size + joined.size,
{
    let updated = holes.update(k - 1, joined);
    let after = updated.remove(k);
    lemma_total_update(holes, k - 1, joined);
    lemma_total_remove(updated, k);
    assert(holes[k - 1].end() < holes[k].addr);
    assert forall|i: int| 0 <= i < after.len() implies #[trigger] after[i] == (if i < k - 1 {
        holes[i]
    } else if i == k - 1 {
        joined
    } else {
        holes[i + 1]
    }) by {}
    assert forall|i: int, j: int| 0 <= i < j < after.len() implies (#[trigger] after[i]).end() < (
    #[trigger] after[j]).addr by {
        if i < k - 1 {
            if j == k - 1 {
                assert(holes[i].end() < holes[k - 1].addr);
            } else {
                assert(holes[i].end() < holes[j + 1].addr);
            }
        } else if i == k - 1 {
            assert(holes[k].end() < holes[j + 1].addr);
        } else {
            assert(holes[i + 1].end() < holes[j + 1].addr);
        }
    }
    assert forall|byte: int| #[trigger] is_free(after, byte) == (is_free(holes, byte)
        || joined.holds(byte)) by {
        if is_free(after, byte) {
            let i = choose|i: int| 0 <= i < after.len() && (#[trigger] after[i]).holds(byte);
            if i < k - 1 {
                assert(holes[i].holds(byte));
            } else if i > k - 1 {
                assert(holes[i + 1].holds(byte));
            }
        }
        if is_free(holes, byte) {
            let i = choose|i: int| 0 <= i < holes.len() && (#[trigger] holes[i]).holds(byte);
            if i < k - 1 {
                assert(after[i].holds(byte));
            } else if i == k - 1 || i == k {
                assert(after[k - 1].holds(byte));
            } else {
                assert(after[i - 1].holds(byte));
            }
        }
        if joined.holds(byte) {
            assert(after[k - 1].holds(byte));
        }
    }
}

/// Freeing a used block keeps the list well formed, makes the bytes of the
/// block free and no others, and adds the block's size to the free bytes.
pub proof fn lemma_released(holes: Seq<HoleInfo>, addr: int, size: int)
    requires
        well_formed(holes),
        size >= MIN_SIZE,
        0 <= addr,
        addr + size <= usize::MAX,
        is_used(holes, addr, size),
    ensures
        well_formed(released(holes, addr, size)),
        forall|byte: int| #[trigger]
            is_free(released(holes, addr, size), byte) == (is_free(holes, byte) || addr <= byte
                < addr + size),
        total(released(holes, addr, size)) == total(holes) + size,
{
    let k = position(holes, addr);
    lemma_position_splits(holes, addr);
    let joins_lower = k > 0 && holes[k - 1].end() == addr;
    let joins_upper = k < holes.len() && addr + size == holes[k].addr;
    if k > 0 {
        assert(holes[k - 1].end() <= addr);
    }
    if k < holes.len() {
        assert(addr + size <= holes[k].addr);
    }
    if k + 1 < holes.len() {
        assert(holes[k].end() < holes[k + 1].addr);
    }
    if k > 1 {
        assert(holes[k - 2].end() < holes[k - 1].addr);
    }
    if joins_lower && joins_upper {
        let joined = HoleInfo {
            addr: holes[k - 1].addr,
            size: (holes[k - 1].size + size + holes[k].size) as usize,
        };
        lemma_join_blocks(holes, k, joined);
        assert(released(holes, addr, size) == holes.update(k - 1, joined).remove(k));
        assert forall|byte: int| joined.holds(byte) implies is_free(holes, byte) || addr <= byte
            < addr + size by {
            if byte < addr {
                assert(holes[k - 1].holds(byte));
            } else if byte >= addr + size {
                assert(holes[k].holds(byte));
            }
        }
    } else if joins_lower {
        let wider = HoleInfo {
            addr: holes[k - 1].addr,
            size: (holes[k - 1].size + size) as usize,
        };
        lemma_widen_block(holes, k - 1, wider);
        assert(released(holes, addr, size) == holes.update(k - 1, wider));
        assert forall|byte: int| wider.holds(byte) implies is_free(holes, byte) || addr <= byte
            < addr + size by {
            if byte < addr {
                assert(holes[k - 1].holds(byte));
            }
        }
    } else if joins_upper {
        let wider = HoleInfo { addr: addr as usize, size: (size + holes[k].size) as usize };
        lemma_widen_block(holes, k, wider);
        assert(released(holes, addr, size) == holes.update(k, wider));
        assert forall|byte: int| wider.holds(byte) implies is_free(holes, byte) || addr <= byte
            < addr + size by {
            if byte >= addr + size {
                assert(holes[k].holds(byte));
            }
        }
    } else {
        let block = HoleInfo { addr: addr as usize, size: size as usize };
        lemma_insert_block(holes, k, block);
        assert(released(holes, addr, size) == holes.insert(k, block));
        assert(forall|byte: int| block.holds(byte) == (addr <= byte < addr + size));
    }
}

/// A block that shrinks inside its old extent leaves the list well formed
/// and takes the bytes it loses from the free ones.
pub proof fn lemma_narrow_block(holes: Seq<HoleInfo>, k: int, narrower: HoleInfo)
    requires
        well_formed(holes),
        0 <= k < holes.len(),
        narrower.size >= MIN_SIZE,
        holes[k].addr <= narrower.addr,
        narrower.end() <= holes[k].end(),
    ensures
        well_formed(holes.update(k, narrower)),
        forall|byte: int| #[trigger]
            is_free(holes.update(k, narrower), byte) == (is_free(holes, byte) && (holes[k].holds(
                byte,
            ) ==> narrower.holds(byte))),
        total(holes.update(k, narrower)) == total(holes) - holes[k].size + narrower.size,
{
    let after = holes.update(k, narrower);
    lemma_total_update(holes, k, narrower);
    assert forall|i: int, j: int| 0 <= i < j < after.len() implies (#[trigger] after[i]).end() < (
    #[trigger] after[j]).addr by {
        assert(holes[i].end() < holes[j].addr);
    }
    assert forall|byte: int| #[trigger] is_free(after, byte) == (is_free(holes, byte) && (
    holes[k].holds(byte) ==> narrower.holds(byte))) by {
        if is_free(after, byte) {
            let i = choose|i: int| 0 <= i < after.len() && (#[trigger] after[i]).holds(byte);
            assert(holes[i].holds(byte));
            if i != k && holes[k].holds(byte) {
                if i < k {
                    assert(holes[i].end() < holes[k].addr);
                } else {
                    assert(holes[k].end() < holes[i].addr);
                }
            }
        }
        if is_free(holes, byte) && (holes[k].holds(byte) ==> narrower.holds(byte)) {
            let i = choose|i: int| 0 <= i < holes.len() && (#[trigger] holes[i]).holds(byte);
            assert(after[i].holds(byte));
        }
    }
}

/// A block that leaves the list leaves it well formed and takes its bytes
/// from the free ones.
pub proof fn lemma_remove_block(holes: Seq<HoleInfo>, k: int)
    requires
        well_formed(holes),
        0 <= k < holes.len(),
    ensures
        well_formed(holes.remove(k)),
        forall|byte: int| #[trigger]
            is_free(holes.remove(k), byte) == (is_free(holes, byte) && !holes[k].holds(byte)),
        total(holes.remove(k)) == total(holes) - holes[k].size,
{
    let after = holes.remove(k);
    lemma_total_remove(holes, k);
    assert forall|i: int| 0 <= i < after.len() implies #[trigger] after[i] == (if i < k {
        holes[i]
    } else {
        holes[i + 1]
    }) by {}
    assert forall|i: int, j: int| 0 <= i < j < after.len() implies (#[trigger] after[i]).end() < (
    #[trigger] after[j]).addr by {
        if j < k {
            assert(holes[i].end() < holes[j].addr);
        } else if i < k {
            assert(holes[i].end() < holes[j + 1].addr);
        } else {
            assert(holes[i + 1].end() < holes[j + 1].addr);
        }
    }
    assert forall|byte: int| #[trigger] is_free(after, byte) == (is_free(holes, byte)
        && !holes[k].holds(byte)) by {
        if is_free(after, byte) {
            let i = choose|i: int| 0 <= i < after.len() && (#[trigger] after[i]).holds(byte);
            if i < k {
                assert(holes[i].holds(byte));
                assert(holes[i].end() < holes[k].addr);
            } else {
                assert(holes[i + 1].holds(byte));
                assert(holes[k].end() < holes[i + 1].addr);
            }
        }
        if is_free(holes, byte) && !holes[k].holds(byte) {
            let i = choose|i: int| 0 <= i < holes.len() && (#[trigger] holes[i]).holds(byte);
            if i < k {
                assert(after[i].holds(byte));
            } else {
                assert(after[i - 1].holds(byte));
            }
        }
    }
}

/// Where a request of `size` bytes aligned to `align` starts in the block
/// `hole`, if the block can serve it: at the block's start if that is
/// aligned, else at the first aligned address that leaves room for a block
/// of the smallest size in front; and what is left behind the request is
/// nothing or a block of at least the smallest size.
pub open spec fn placement(hole: HoleInfo, size: int, align: int) -> Option<int> {
    let start = if hole.addr as int % align == 0 {
        hole.addr as int
    } else {
        spec_align_up(hole.addr + MIN_SIZE, align)
    };
    let left = hole.end() - (start + size);
    if left == 0 || left >= MIN_SIZE {
        Some(start)
    } else {
        None
    }
}

/// Whether block `index` is the first of the list that can serve a request.
pub open spec fn is_first_fit(holes: Seq<HoleInfo>, size: int, align: int, index: int) -> bool {
    &&& 0 <= index < holes.len()
    &&& placement(holes[index], size, align).is_some()
    &&& forall|i: int| 0 <= i < index ==> placement(#[trigger] holes[i], size, align).is_none()
}

/// Index of the first block that can serve a request, if there is one.
pub open spec fn first_fit(holes: Seq<HoleInfo>, size: int, align: int) -> Option<int> {
    if exists|index: int| is_first_fit(holes, size, align, index) {
        Some(choose|index: int| is_first_fit(holes, size, align, index))
    } else {
        None
    }
}

/// The first block that can serve a request is the only one with no such
/// block before it.
pub proof fn lemma_first_fit(holes: Seq<HoleInfo>, size: int, align: int, index: int)
    requires
        is_first_fit(holes, size, align, index),
    ensures
        first_fit(holes, size, align) == Some(index),
{
    let chosen = choose|index: int| is_first_fit(holes, size, align, index);
    assert(is_first_fit(holes, size, align, chosen));
    if chosen < index {
        assert(placement(holes[chosen], size, align).is_none());
    } else if index < chosen {
        assert(placement(holes[index], size, align).is_none());
    }
}

/// The list after `size` bytes from `start` on were taken out of block
/// `index`: what is left of the block in front of them and behind them
/// stays in the list.
pub open spec fn carved(holes: Seq<HoleInfo>, index: int, start: int, size: int) -> Seq<HoleInfo> {
    let hole = holes[index];
    let front = HoleInfo { addr: hole.addr, size: (start - hole.addr) as usize };
    let back = HoleInfo {
        addr: (start + size) as usize,
        size: (hole.end() - (start + size)) as usize,
    };
    if start > hole.addr && hole.end() > start + size {
        holes.update(index, front).insert(index + 1, back)
    } else if start > hole.addr {
        holes.update(index, front)
    } else if hole.end() > start + size {
        holes.update(index, back)
    } else {
        holes.remove(index)
    }
}

/// A request that a block can serve starts inside the block at an aligned
/// address, with nothing or at least the smallest size in front.
pub proof fn lemma_placement(hole: HoleInfo, size: int, align: int)
    requires
        is_block(hole),
        size >= MIN_SIZE,
        align > 0,
        placement(hole, size, align).is_some(),
    ensures
        placement(hole, size, align).unwrap() % align == 0,
        placement(hole, size, align).unwrap() == hole.addr || placement(
            hole,
            size,
            align,
        ).unwrap() >= hole.addr + MIN_SIZE,
        placement(hole, size, align).unwrap() + size <= hole.end(),
{
    if hole.addr as int % align != 0 {
        lemma_align_up_properties(hole.addr + MIN_SIZE, align);
    }
}

/// Serving a request from a block keeps the list well formed, takes the
/// bytes of the request from the free ones and no others, and takes the
/// request's size from the free bytes.
pub proof fn lemma_carved(holes: Seq<HoleInfo>, index: int, size: int, align: int)
    requires
        well_formed(holes),
        0 <= index < holes.len(),
        size >= MIN_SIZE,
        align > 0,
        placement(holes[index], size, align).is_some(),
    ensures
        ({
            let start = placement(holes[index], size, align).unwrap();
            let after = carved(holes, index, start, size);
            &&& well_formed(after)
            &&& forall|byte: int| #[trigger]
                is_free(after, byte) == (is_free(holes, byte) && !(start <= byte < start + size))
            &&& total(after) == total(holes) - size
            &&& is_used(after, start, size)
            &&& holes[index].addr <= start
            &&& start + size <= holes[index].end()
            &&& start % align == 0
        }),
{
    let hole = holes[index];
    let start = placement(hole, size, align).unwrap();
    lemma_placement(hole, size, align);
    let after = carved(holes, index, start, size);
    let front = HoleInfo { addr: hole.addr, size: (start - hole.addr) as usize };
    let back = HoleInfo {
        addr: (start + size) as usize,
        size: (hole.end() - (start + size)) as usize,
    };
    if start > hole.addr && hole.end() > start + size {
        let narrowed = holes.update(index, front);
        lemma_narrow_block(holes, index, front);
        if index + 1 < holes.len() {
            assert(holes[index].end() < holes[index + 1].addr);
        }
        lemma_insert_block(narrowed, index + 1, back);
        assert(after == narrowed.insert(index + 1, back));
        assert forall|byte: int| #[trigger]
            is_free(after, byte) == (is_free(holes, byte) && !(start <= byte < start + size)) by {
            assert(is_free(after, byte) == (is_free(narrowed, byte) || back.holds(byte)));
            assert(is_free(narrowed, byte) == (is_free(holes, byte) && (hole.holds(byte)
                ==> front.holds(byte))));
            if back.holds(byte) {
                assert(holes[index].holds(byte));
            }
        }
    } else if start > hole.addr {
        lemma_narrow_block(holes, index, front);
        assert(after == holes.update(index, front));
        assert forall|byte: int| #[trigger]
            is_free(after, byte) == (is_free(holes, byte) && !(start <= byte < start + size)) by {
            assert(is_free(after, byte) == (is_free(holes, byte) && (hole.holds(byte)
                ==> front.holds(byte))));
            if start <= byte < start + size {
                assert(holes[index].holds(byte));
            }
        }
    } else if hole.end() > start + size {
        lemma_narrow_block(holes, index, back);
        assert(after == holes.update(index, back));
        assert forall|byte: int| #[trigger]
            is_free(after, byte) == (is_free(holes, byte) && !(start <= byte < start + size)) by {
            assert(is_free(after, byte) == (is_free(holes, byte) && (hole.holds(byte)
                ==> back.holds(byte))));
            if start <= byte < start + size {
                assert(holes[index].holds(byte));
            }
        }
    } else {
        lemma_remove_block(holes, index);
        assert(after == holes.remove(index));
    }
    assert forall|i: int| 0 <= i < after.len() implies (#[trigger] after[i]).end() <= start
        || start + size <= after[i].addr by {
        if !(after[i].end() <= start || start + size <= after[i].addr) {
            let byte = if after[i].addr >= start {
                after[i].addr as int
            } else {
                start
            };
            assert(after[i].holds(byte));
            assert(is_free(after, byte));
        }
    }
}

/// A request served and given back leaves the list as it was.
pub proof fn lemma_release_restores(holes: Seq<HoleInfo>, index: int, size: int, align: int)
    requires
        well_formed(holes),
        0 <= index < holes.len(),
        size >= MIN_SIZE,
        align > 0,
        placement(holes[index], size, align).is_some(),
    ensures
        released(
            carved(holes, index, placement(holes[index], size, align).unwrap(), size),
            placement(holes[index], size, align).unwrap(),
            size,
        ) == holes,
{
    let start = placement(holes[index], size, align).unwrap();
    let after = carved(holes, index, start, size);
    lemma_carved(holes, index, size, align);
    lemma_released(after, start, size);
    let back = released(after, start, size);
    assert forall|byte: int| is_free(back, byte) == is_free(holes, byte) by {
        assert(is_free(back, byte) == (is_free(after, byte) || start <= byte < start + size));
        assert(is_free(after, byte) == (is_free(holes, byte) && !(start <= byte < start + size)));
        if start <= byte < start + size {
            assert(holes[index].holds(byte));
        }
    }
    lemma_same_free_same_list(back, holes);
}

/// Two blocks that lie one behind the other become free as one block,
/// whichever is freed first: the list is the one that freeing both at once
/// gives, and one of its blocks holds both.
pub proof fn lemma_release_coalesces(holes: Seq<HoleInfo>, addr: int, first: int, second: int)
    requires
        well_formed(holes),
        first >= MIN_SIZE,
        second >= MIN_SIZE,
        0 <= addr,
        addr + first + second <= usize::MAX,
        is_used(holes, addr, first + second),
    ensures
        released(released(holes, addr, first), addr + first, second) == released(
            holes,
            addr,
            first + second,
        ),
        released(released(holes, addr + first, second), addr, first) == released(
            holes,
            addr,
            first + second,
        ),
        exists|i: int|
            0 <= i < released(holes, addr, first + second).len() && (#[trigger] released(
                holes,
                addr,
                first + second,
            )[i]).addr <= addr && addr + first + second <= released(
                holes,
                addr,
                first + second,
            )[i].end(),
{
    let whole = released(holes, addr, first + second);
    lemma_released(holes, addr, first + second);
    // Lower block first.
    let lower = released(holes, addr, first);
    lemma_released(holes, addr, first);
    assert(is_used(lower, addr + first, second)) by {
        assert forall|i: int| 0 <= i < lower.len() implies (#[trigger] lower[i]).end() <= addr
            + first || addr + first + second <= lower[i].addr by {
            lemma_block_is_used(lower, i, addr + first, second);
        }
    }
    lemma_released(lower, addr + first, second);
    let lower_upper = released(lower, addr + first, second);
    assert forall|byte: int| is_free(lower_upper, byte) == is_free(whole, byte) by {
        assert(is_free(lower_upper, byte) == (is_free(lower, byte) || addr + first <= byte
            < addr + first + second));
        assert(is_free(lower, byte) == (is_free(holes, byte) || addr <= byte < addr + first));
        assert(is_free(whole, byte) == (is_free(holes, byte) || addr <= byte < addr + first
            + second));
    }
    lemma_same_free_same_list(lower_upper, whole);
    // Upper block first.
    let upper = released(holes, addr + first, second);
    assert(is_used(holes, addr + first, second));
    lemma_released(holes, addr + first, second);
    assert(is_used(upper, addr, first)) by {
        assert forall|i: int| 0 <= i < upper.len() implies (#[trigger] upper[i]).end() <= addr
            || addr + first <= upper[i].addr by {
            lemma_block_is_used(upper, i, addr, first);
        }
    }
    lemma_released(upper, addr, first);
    let upper_lower = released(upper, addr, first);
    assert forall|byte: int| is_free(upper_lower, byte) == is_free(whole, byte) by {
        assert(is_free(upper_lower, byte) == (is_free(upper, byte) || addr <= byte < addr
            + first));
        assert(is_free(upper, byte) == (is_free(holes, byte) || addr + first <= byte < addr
            + first + second));
        assert(is_free(whole, byte) == (is_free(holes, byte) || addr <= byte < addr + first
            + second));
    }
    lemma_same_free_same_list(upper_lower, whole);
    // One block holds both.
    assert(is_free(whole, addr));
    let i = choose|i: int| 0 <= i < whole.len() && (#[trigger] whole[i]).holds(addr);
    lemma_run_in_one_block(whole, i, addr, addr + first + second);
}

/// A block of the list that shares no free byte with a range lies beside
/// the range.
pub proof fn lemma_block_is_used(holes: Seq<HoleInfo>, i: int, addr: int, size: int)
    requires
        0 <= i < holes.len(),
        holes[i].size > 0,
        size > 0,
        forall|byte: int| addr <= byte < addr + size ==> !#[trigger] is_free(holes, byte),
    ensures
        holes[i].end() <= addr || addr + size <= holes[i].addr,
{
    if !(holes[i].end() <= addr || addr + size <= holes[i].addr) {
        let byte = if holes[i].addr >= addr {
            holes[i].addr as int
        } else {
            addr
        };
        assert(holes[i].holds(byte));
        assert(is_free(holes, byte));
    }
}

/// A run of free bytes lies in one block of a well-formed list.
pub proof fn lemma_run_in_one_block(holes: Seq<HoleInfo>, i: int, from: int, to: int)
    requires
        well_formed(holes),
        0 <= i < holes.len(),
        holes[i].holds(from),
        from < to,
        forall|byte: int| from <= byte < to ==> #[trigger] is_free(holes, byte),
    ensures
        to <= holes[i].end(),
{
    if to > holes[i].end() {
        let byte = holes[i].end();
        assert(is_free(holes, byte));
        let j = choose|j: int| 0 <= j < holes.len() && (#[trigger] holes[j]).holds(byte);
        if j < i {
            assert(holes[j].end() < holes[i].addr);
        } else if j > i {
            assert(holes[i].end() < holes[j].addr);
        }
    }
}

/// Two multiples of one number that lie less than that number apart are one.
pub proof fn lemma_one_multiple(a: int, b: int, step: int)
    requires
        step > 0,
        a % step == 0,
        b % step == 0,
        a - step < b < a + step,
    ensures
        a == b,
{
    vstd::arithmetic::div_mod::lemma_fundamental_div_mod(a, step);
    vstd::arithmetic::div_mod::lemma_fundamental_div_mod(b, step);
    let p = a / step;
    let q = b / step;
    assert(p == q) by (nonlinear_arith)
        requires
            step > 0,
            step * p - step < step * q < step * p + step,
    ;
}

/// Where a request starts in a block, if the block can serve it.
pub fn split_hole(hole: HoleInfo, size: usize, align: usize) -> (start: Option<usize>)
    requires
        is_block(hole),
        size >= MIN_SIZE,
        align > 0,
    ensures
        start.is_some() == placement(hole, size as int, align as int).is_some(),
        start.is_some() ==> start.unwrap() == placement(hole, size as int, align as int).unwrap(),
{
    let hole_end = hole.addr + hole.size;
    let start = if hole.addr % align == 0 {
        // The block is aligned as it is.
        hole.addr
    } else {
        // Leave room for a block in front of the request.
        let base = hole.addr + MIN_SIZE;
        let over = base % align;
        proof {
            lemma_align_up_properties(base as int, align as int);
            let up = spec_align_up(base as int, align as int);
            if over == 0 {
                assert(up == base);
            } else {
                let next = base - over + align;
                vstd::arithmetic::div_mod::lemma_fundamental_div_mod(base as int, align as int);
                vstd::arithmetic::div_mod::lemma_mod_multiples_basic(
                    base as int / align as int + 1,
                    align as int,
                );
                assert(next == (base as int / align as int + 1) * align) by (nonlinear_arith)
                    requires
                        next == base - over + align,
                        base == align * (base as int / align as int) + over,
                ;
                lemma_one_multiple(up, next, align as int);
            }
        }
        if over == 0 {
            base
        } else if base - over > usize::MAX - align {
            return None;
        } else {
            base - over + align
        }
    };
    if start > hole_end {
        return None;
    }
    let room = hole_end - start;
    if room < size {
        return None;
    }
    let left = room - size;
    if left != 0 && left < MIN_SIZE {
        return None;
    }
    Some(start)
}

/// The free blocks of a heap, ordered by address.
pub struct HoleList {
    holes: Vec<HoleInfo>,
}

impl View for HoleList {
    type V = Seq<HoleInfo>;

    closed spec fn view(&self) -> Seq<HoleInfo> {
        self.holes@
    }
}

impl HoleList {
    /// A list without a block.
    pub fn empty() -> (list: HoleList)
        ensures
            list@ == Seq::<HoleInfo>::empty(),
            well_formed(list@),
    {
        HoleList { holes: Vec::new() }
    }

    /// A list with one block of `hole_size` bytes at `hole_addr`. The block
    /// has at least the smallest size and ends inside the address space.
    pub fn new(hole_addr: usize, hole_size: usize) -> (list: HoleList)
        requires
            hole_size >= MIN_SIZE,
            hole_addr + hole_size <= usize::MAX,
        ensures
            list@ == seq![HoleInfo { addr: hole_addr, size: hole_size }],
            well_formed(list@),
            total(list@) == hole_size,
    {
        let mut holes = Vec::new();
        holes.push(HoleInfo { addr: hole_addr, size: hole_size });
        proof {
            assert(holes@ =~= seq![HoleInfo { addr: hole_addr, size: hole_size }]);
            assert(holes@.drop_last() =~= Seq::<HoleInfo>::empty());
            assert(total(holes@.drop_last()) == 0);
            assert(total(holes@) == total(holes@.drop_last()) + holes@.last().size);
        }
        HoleList { holes }
    }

    /// The smallest size a block can have.
    pub fn min_size() -> (size: usize)
        ensures
            size == MIN_SIZE,
    {
        MIN_SIZE
    }

    /// The blocks of the list, lowest first.
    pub fn holes(&self) -> (holes: &Vec<HoleInfo>)
        ensures
            holes@ == self@,
    {
        &self.holes
    }

    /// Serves a request from the first block that can serve it and returns
    /// the address of the request's first byte. What is left of the block in
    /// front of the request and behind it stays free. Fails, with the list
    /// unchanged, if no block can serve the request.
    pub fn allocate_first_fit(&mut self, layout: Layout) -> (result: Result<usize, AllocErr>)
        requires
            well_formed(old(self)@),
            layout.spec_size() >= MIN_SIZE,
        ensures
            well_formed(final(self)@),
            match first_fit(old(self)@, layout.spec_size() as int, layout.spec_align() as int) {
                Some(index) => result == Ok::<usize, AllocErr>(
                    placement(
                        old(self)@[index],
                        layout.spec_size() as int,
                        layout.spec_align() as int,
                    ).unwrap() as usize,
                ) && final(self)@ == carved(
                    old(self)@,
                    index,
                    placement(
                        old(self)@[index],
                        layout.spec_size() as int,
                        layout.spec_align() as int,
                    ).unwrap(),
                    layout.spec_size() as int,
                ),
                None => result == Err::<usize, AllocErr>(AllocErr::Exhausted { request: layout })
                    && final(self)@ == old(self)@,
            },
            result.is_ok() ==> {
                &&& result.unwrap() % layout.spec_align() == 0
                &&& result.unwrap() + layout.spec_size() <= usize::MAX
                &&& forall|byte: int|
                    result.unwrap() <= byte < result.unwrap() + layout.spec_size() ==> is_free(
                        old(self)@,
                        byte,
                    )
                &&& forall|byte: int| #[trigger]
                    is_free(final(self)@, byte) == (is_free(old(self)@, byte) && !(result.unwrap()
                        <= byte < result.unwrap() + layout.spec_size()))
                &&& total(final(self)@) == total(old(self)@) - layout.spec_size()
                &&& is_used(final(self)@, result.unwrap() as int, layout.spec_size() as int)
            },
            layout.spec_size() > total(old(self)@) ==> result.is_err(),
    {
        let size = layout.size();
        let align = layout.align();
        let mut index: usize = 0;
        let mut found: Option<usize> = None;
        while index < self.holes.len()
            invariant_except_break
                found.is_none(),
            invariant
                index <= self.holes.len(),
                self@ == old(self)@,
                well_formed(self@),
                size >= MIN_SIZE,
                align > 0,
                size == layout.spec_size(),
                align == layout.spec_align(),
                forall|i: int|
                    0 <= i < index ==> placement(
                        #[trigger] self@[i],
                        size as int,
                        align as int,
                    ).is_none(),
            ensures
                index <= self.holes.len(),
                self@ == old(self)@,
                forall|i: int|
                    0 <= i < index ==> placement(
                        #[trigger] self@[i],
                        size as int,
                        align as int,
                    ).is_none(),
                match found {
                    Some(start) => index < self.holes.len() && placement(
                        self@[index as int],
                        size as int,
                        align as int,
                    ) == Some(start as int),
                    None => index == self.holes.len(),
                },
            decreases self.holes.len() - index,
        {
            match split_hole(self.holes[index], size, align) {
                Some(start) => {
                    found = Some(start);
                    break ;
                },
                None => {
                    index = index + 1;
                },
            }
        }
        match found {
            Some(start) => {
                let hole = self.holes[index];
                let hole_end = hole.addr + hole.size;
                proof {
                    lemma_first_fit(self@, size as int, align as int, index as int);
                    lemma_carved(self@, index as int, size as int, align as int);
                    lemma_total_bounds(self@, index as int);
                    assert forall|byte: int| start <= byte < start + size implies is_free(
                        self@,
                        byte,
                    ) by {
                        assert(self@[index as int].holds(byte));
                    }
                }
                let front = HoleInfo { addr: hole.addr, size: start - hole.addr };
                let back = HoleInfo { addr: start + size, size: hole_end - (start + size) };
                if start > hole.addr && hole_end > start + size {
                    self.holes.set(index, front);
                    self.holes.insert(index + 1, back);
                } else if start > hole.addr {
                    self.holes.set(index, front);
                } else if hole_end > start + size {
                    self.holes.set(index, back);
                } else {
                    self.holes.remove(index);
                }
                Ok(start)
            },
            None => {
                proof {
                    assert forall|i: int| !is_first_fit(self@, size as int, align as int, i) by {}
                }
                Err(AllocErr::Exhausted { request: layout })
            },
        }
    }

    /// Makes the block of `size` bytes at `addr` free again. The block goes
    /// to its place in the order of addresses and becomes one block with a
    /// free block that ends where it starts or starts where it ends. The
    /// block has at least the smallest size, and none of its bytes is free.
    pub fn deallocate(&mut self, addr: usize, size: usize)
        requires
            well_formed(old(self)@),
            size >= MIN_SIZE,
            addr + size <= usize::MAX,
            is_used(old(self)@, addr as int, size as int),
        ensures
            final(self)@ == released(old(self)@, addr as int, size as int),
            well_formed(final(self)@),
            forall|byte: int| #[trigger]
                is_free(final(self)@, byte) == (is_free(old(self)@, byte) || addr <= byte < addr
                    + size),
            total(final(self)@) == total(old(self)@) + size,
    {
        proof {
            lemma_released(self@, addr as int, size as int);
        }
        let mut k: usize = 0;
        while k < self.holes.len() && self.holes[k].addr < addr
            invariant
                k <= self.holes.len(),
                self@ == old(self)@,
                forall|i: int| 0 <= i < k ==> (#[trigger] self@[i]).addr < addr,
            decreases self.holes.len() - k,
        {
            k = k + 1;
        }
        proof {
            assert forall|i: int| k <= i < self@.len() implies (#[trigger] self@[i]).addr
                >= addr by {
                if i > k {
                    assert(self@[k as int].end() < self@[i].addr);
                }
            }
            lemma_position(self@, addr as int, k as int);
            if k > 0 {
                assert(self@[k - 1].end() <= addr);
            }
            if k < self@.len() {
                assert(addr + size <= self@[k as int].addr);
            }
        }
        let joins_lower = k > 0 && self.holes[k - 1].addr + self.holes[k - 1].size == addr;
        let joins_upper = k < self.holes.len() && addr + size == self.holes[k].addr;
        if joins_lower && joins_upper {
            let lower = self.holes[k - 1];
            let upper = self.holes[k];
            self.holes.set(
                k - 1,
                HoleInfo { addr: lower.addr, size: lower.size + size + upper.size },
            );
            self.holes.remove(k);
        } else if joins_lower {
            let lower = self.holes[k - 1];
            self.holes.set(k - 1, HoleInfo { addr: lower.addr, size: lower.size + size });
        } else if joins_upper {
            let upper = self.holes[k];
            self.holes.set(k, HoleInfo { addr, size: size + upper.size });
        } else {
            self.holes.insert(k, HoleInfo { addr, size });
        }
    }
}

} // verus!
