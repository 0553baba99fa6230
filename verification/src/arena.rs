//! The arena: one contiguous range of addresses and the bytes behind it.
//!
//! Headers of free regions live inside the arena itself. This module is the only
//! place that turns bytes into headers and back.

use crate::block::{Block, BLOCK_SIZE};
use vstd::bytes::{
    lemma_auto_spec_u64_to_from_le_bytes, spec_u64_from_le_bytes, u64_from_le_bytes,
    u64_to_le_bytes,
};
use vstd::prelude::*;
use vstd::slice::slice_subrange;

verus! {

/// The link word that marks the end of the free list. No header can lie at this
/// address, since a header needs `BLOCK_SIZE` bytes behind its address.
pub const NO_LINK: u64 = 0xffff_ffff_ffff_ffff;

/// What the sixteen bytes of a header say.
pub struct Header {
    pub size: int,
    pub next: Option<int>,
}

/// Reads a header out of its sixteen bytes: the size, then the link, both as
/// little-endian 64-bit words.
pub open spec fn decode_header(raw: Seq<u8>) -> Header {
    let size = spec_u64_from_le_bytes(raw.subrange(0, 8));
    let link = spec_u64_from_le_bytes(raw.subrange(8, 16));
    Header {
        size: size as int,
        next: if link == NO_LINK {
            None
        } else {
            Some(link as int)
        },
    }
}

/// A range of addresses `[base, base + len)` with one byte of storage for each.
pub struct Arena {
    base: usize,
    bytes: Vec<u8>,
}

impl View for Arena {
    type V = Seq<u8>;

    closed spec fn view(&self) -> Seq<u8> {
        self.bytes@
    }
}

impl Arena {
    /// The lowest address of the arena.
    pub closed spec fn base(&self) -> int {
        self.base as int
    }

    /// The number of bytes of the arena.
    pub open spec fn len(&self) -> int {
        self@.len() as int
    }

    /// One past the highest address of the arena.
    pub open spec fn end(&self) -> int {
        self.base() + self.len()
    }

    /// The arena lies within the address space.
    pub open spec fn wf(&self) -> bool {
        self.end() <= usize::MAX
    }

    /// Whether a whole header fits at `addr` inside the arena.
    pub open spec fn holds_header(&self, addr: int) -> bool {
        self.base() <= addr && addr + BLOCK_SIZE <= self.end()
    }

    /// The header that the bytes at `addr` spell.
    pub open spec fn header_at(&self, addr: int) -> Header {
        decode_header(self@.subrange(addr - self.base(), addr - self.base() + BLOCK_SIZE))
    }

    /// Whether the header at `addr` can be held in machine words.
    pub open spec fn header_fits(&self, addr: int) -> bool {
        let header = self.header_at(addr);
        &&& header.size <= usize::MAX
        &&& header.next matches Some(next) ==> next <= usize::MAX
    }

    /// An arena of `len` zero bytes that starts at `base`.
    pub fn new(base: usize, len: usize) -> (arena: Arena)
        requires
            base + len <= usize::MAX,
        ensures
            arena.wf(),
            arena.base() == base,
            arena.len() == len,
            forall|i: int| 0 <= i < len ==> arena@[i] == 0,
    {
        let mut bytes: Vec<u8> = Vec::new();
        let mut filled: usize = 0;
        while filled < len
            invariant
                filled <= len,
                bytes@.len() == filled,
                forall|i: int| 0 <= i < filled ==> bytes@[i] == 0,
            decreases len - filled,
        {
            bytes.push(0u8);
            filled = filled + 1;
        }
        Arena { base, bytes }
    }

    /// The lowest address of the arena.
    pub fn start_address(&self) -> (addr: usize)
        ensures
            addr == self.base(),
    {
        self.base
    }

    /// The number of bytes of the arena.
    pub fn size(&self) -> (len: usize)
        ensures
            len == self.len(),
    {
        self.bytes.len()
    }

    /// Reads the header stored at `addr` as a region descriptor.
    pub fn read_header_at(&self, addr: usize) -> (block: Block)
        requires
            self.wf(),
            self.holds_header(addr as int),
            self.header_fits(addr as int),
        ensures
            block.start == addr,
            block.size == self.header_at(addr as int).size,
            match self.header_at(addr as int).next {
                Some(next) => block.next == Some(next as usize),
                None => block.next.is_none(),
            },
    {
        let offset = addr - self.base;
        let all = self.bytes.as_slice();
        let size_word = u64_from_le_bytes(slice_subrange(all, offset, offset + 8));
        let link_word = u64_from_le_bytes(slice_subrange(all, offset + 8, offset + 16));
        proof {
            let raw = self@.subrange(offset as int, offset + 16);
            assert(raw.subrange(0, 8) == self@.subrange(offset as int, offset + 8));
            assert(raw.subrange(8, 16) == self@.subrange(offset + 8, offset + 16));
        }
        let next = if link_word == NO_LINK {
            None
        } else {
            Some(link_word as usize)
        };
        Block { start: addr, size: size_word as usize, next }
    }

    /// Writes a header at `addr`. Only the sixteen bytes at `addr` change.
    pub fn write_header_at(&mut self, addr: usize, size: usize, next: Option<usize>)
        requires
            old(self).wf(),
            old(self).holds_header(addr as int),
            next matches Some(link) ==> link < NO_LINK,
        ensures
            final(self).wf(),
            final(self).base() == old(self).base(),
            final(self).len() == old(self).len(),
            final(self).header_at(addr as int).size == size,
            match next {
                Some(link) => final(self).header_at(addr as int).next == Some(link as int),
                None => final(self).header_at(addr as int).next.is_none(),
            },
            forall|i: int|
                0 <= i < old(self).len() && !(addr - old(self).base() <= i < addr - old(self).base()
                    + BLOCK_SIZE) ==> final(self)@[i] == old(self)@[i],
    {
        let offset = addr - self.base;
        let link: u64 = match next {
            Some(link) => link as u64,
            None => NO_LINK,
        };
        let size_bytes = u64_to_le_bytes(size as u64);
        let link_bytes = u64_to_le_bytes(link);
        self.store(offset, &size_bytes);
        self.store(offset + 8, &link_bytes);
        proof {
            lemma_auto_spec_u64_to_from_le_bytes();
            let raw = self@.subrange(offset as int, offset + 16);
            assert(raw.subrange(0, 8) == size_bytes@);
            assert(raw.subrange(8, 16) == link_bytes@);
        }
    }

    /// Copies `data` into the arena, starting `offset` bytes after its base.
    fn store(&mut self, offset: usize, data: &Vec<u8>)
        requires
            offset + data@.len() <= old(self).len() <= usize::MAX,
        ensures
            final(self).base() == old(self).base(),
            final(self).len() == old(self).len(),
            final(self)@.subrange(offset as int, offset + data@.len()) == data@,
            forall|i: int|
                0 <= i < old(self).len() && !(offset <= i < offset + data@.len())
                    ==> final(self)@[i] == old(self)@[i],
    {
        let mut copied: usize = 0;
        while copied < data.len()
            invariant
                copied <= data@.len(),
                offset + data@.len() <= self.len() <= usize::MAX,
                self.base() == old(self).base(),
                self.len() == old(self).len(),
                forall|i: int| 0 <= i < copied ==> self@[offset + i] == data@[i],
                forall|i: int|
                    0 <= i < self.len() && !(offset <= i < offset + copied)
                        ==> self@[i] == old(self)@[i],
            decreases data@.len() - copied,
        {
            self.bytes.set(offset + copied, data[copied]);
            copied = copied + 1;
        }
    }
}

/// Two arenas whose bytes agree on the sixteen bytes at `addr` spell the same
/// header there.
pub proof fn lemma_header_depends_on_its_bytes(before: Arena, after: Arena, addr: int)
    requires
        before.base() == after.base(),
        before.len() == after.len(),
        before.holds_header(addr),
        forall|i: int|
            addr - before.base() <= i < addr - before.base() + BLOCK_SIZE ==> after@[i]
                == before@[i],
    ensures
        after.header_at(addr) == before.header_at(addr),
{
    let offset = addr - before.base();
    assert(after@.subrange(offset, offset + BLOCK_SIZE) == before@.subrange(
        offset,
        offset + BLOCK_SIZE,
    ));
}

} // verus!
