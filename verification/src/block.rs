//! The descriptor of a free region.

use crate::free_list::Region;
use vstd::prelude::*;

verus! {

/// Bytes that a region header occupies at the start of a free region: one word
/// for the size and one for the link to the next free region.
pub const BLOCK_SIZE: usize = 16;

/// Alignment that every region header needs.
pub const BLOCK_ALIGN: usize = 8;

/// A free region as read from its header: where it lies, how many bytes it
/// spans (header included), and which free region follows it in the list.
#[derive(Clone, Copy, Debug, PartialEq, Eq)]
pub struct Block {
    pub start: usize,
    pub size: usize,
    pub next: Option<usize>,
}

impl Block {
    /// One past the last byte of the region.
    pub open spec fn end(self) -> int {
        self.start + self.size
    }

    /// The range of addresses that the descriptor speaks of.
    pub open spec fn region(self) -> Region {
        Region { start: self.start as int, size: self.size as int }
    }

    /// The address of the first byte of the region, which is where its header lies.
    pub fn starting_addr(&self) -> (addr: usize)
        ensures
            addr == self.start,
    {
        self.start
    }

    /// The address one past the last byte of the region.
    pub fn finishing_addr(&self) -> (addr: usize)
        requires
            self.start + self.size <= usize::MAX,
        ensures
            addr == self.end(),
    {
        self.starting_addr() + self.size
    }
}

} // verus!
