//! Virtual-memory management core of a small kernel: physical-frame
//! accounting, four-level page tables reached through a recursive mapping,
//! guarded kernel stacks and a first-fit heap.
//!
//! The hardware is an explicit value: a [`memory::paging::machine::Machine`]
//! holds the words of physical memory, the table-base register and the TLB
//! invalidations issued so far. Every operation takes the state it works on,
//! and its contract says what that state is afterwards.
//!
//! Contracts come in two layers. The functions state what they do to the
//! machine word for word, and ask for what they need entry by entry. The
//! modules [`memory::paging::hierarchy`] and [`memory::paging::rebuild`] then
//! show what this means for a hierarchy that is a tree: when mapping goes
//! through, which pages it leaves alone, with which flags it leaves the
//! pages it maps, and which address space the kernel ends up with.
//!
//! A function that needs something of the machine or of the frames at hand
//! asks for it in its `requires`. Beside it stands a function whose name
//! begins with `try_`, which asks for nothing, tests what the other needs,
//! and says whether the work was done: [`memory::try_init`] is the way in
//! for code that Verus does not see.

use vstd::prelude::*;

pub mod memory;

verus! {

/// Address of the first byte of the kernel heap.
pub const HEAP_START: usize = 0x4000_0000;

/// Size of the kernel heap in bytes.
pub const HEAP_SIZE: usize = 100 * 1024;

} // verus!
