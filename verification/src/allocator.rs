//! The allocator: a singly linked list of free regions whose links live in the
//! headers of the regions themselves, inside the arena.

use crate::align::{
    align_up, align_up_checked, is_aligned, lemma_align_up, lemma_aligned_to_smaller,
    lemma_eight_is_pow2,
};
use crate::arena::{lemma_header_depends_on_its_bytes, Arena};
use crate::block::{Block, BLOCK_ALIGN, BLOCK_SIZE};
use crate::coalesce::{
    after_release, coalesced, has_adjoining, lemma_absorbed, lemma_absorbed_in_steps,
    lemma_settled,
};
use crate::free_list::{
    after_insert, after_request, extent, first_fit, fits, lemma_first_fit, lemma_first_fit_is,
    lemma_first_fit_none, request_align, request_size, served, unused, well_formed, Region,
};
use vstd::arithmetic::power2::is_pow2;
use vstd::prelude::*;

verus! {

/// A first-fit allocator over one arena.
///
/// Its view is the free list: the free regions in the order in which the links
/// lead through them.
pub struct FreeListAllocator {
    arena: Arena,
    head: Option<usize>,
    initialized: bool,
    blocks: Ghost<Seq<usize>>,
}

/// The header of each listed address links to the address listed next, and
/// `head` is the first of them.
spec fn linked(arena: Arena, head: Option<usize>, blocks: Seq<usize>) -> bool {
    &&& head == if blocks.len() == 0 {
        None
    } else {
        Some(blocks[0])
    }
    &&& forall|i: int|
        0 <= i < blocks.len() ==> (#[trigger] arena.header_at(blocks[i] as int)).next == if i + 1
            < blocks.len() {
            Some(blocks[i + 1] as int)
        } else {
            None
        }
}

/// The regions that the headers at the listed addresses describe.
spec fn regions(arena: Arena, blocks: Seq<usize>) -> Seq<Region> {
    Seq::new(
        blocks.len(),
        |i: int| Region { start: blocks[i] as int, size: arena.header_at(blocks[i] as int).size },
    )
}

/// Writing a header into a region that touches no listed region leaves the
/// listed headers as they were; so does writing the header of a listed region,
/// for all the others.
proof fn lemma_other_headers_kept(before: Arena, after: Arena, blocks: Seq<usize>, addr: int)
    requires
        before.wf(),
        before.base() == after.base(),
        before.len() == after.len(),
        well_formed(regions(before, blocks), before.base(), before.end()),
        forall|i: int|
            0 <= i < before.len() && !(addr - before.base() <= i < addr - before.base()
                + BLOCK_SIZE) ==> after@[i] == before@[i],
        forall|i: int|
            0 <= i < blocks.len() && blocks[i] != addr ==> blocks[i] + BLOCK_SIZE <= addr || addr
                + BLOCK_SIZE <= blocks[i],
    ensures
        forall|i: int|
            0 <= i < blocks.len() && blocks[i] != addr ==> after.header_at(
                #[trigger] blocks[i] as int,
            ) == before.header_at(blocks[i] as int),
{
    assert forall|i: int| 0 <= i < blocks.len() && blocks[i] != addr implies after.header_at(
        #[trigger] blocks[i] as int,
    ) == before.header_at(blocks[i] as int) by {
        let region = regions(before, blocks)[i];
        assert(region.can_host_header() && region.within(before.base(), before.end()));
        lemma_header_depends_on_its_bytes(before, after, blocks[i] as int);
    }
}

/// Taking the `i`-th entry out of a linked list: once the header before it
/// links to what followed it (or, for the first entry, once nothing in the arena
/// has changed), the links lead through the other entries, whose regions are as
/// before.
proof fn lemma_unlink(before: Arena, after: Arena, listed: Seq<usize>, i: int)
    requires
        before.wf(),
        before.base() == after.base(),
        before.len() == after.len(),
        0 <= i < listed.len(),
        well_formed(regions(before, listed), before.base(), before.end()),
        forall|k: int|
            0 <= k < listed.len() ==> (#[trigger] before.header_at(listed[k] as int)).next == if k
                + 1 < listed.len() {
                Some(listed[k + 1] as int)
            } else {
                None
            },
        i == 0 ==> after == before,
        i > 0 ==> {
            &&& after.header_at(listed[i - 1] as int).size == before.header_at(
                listed[i - 1] as int,
            ).size
            &&& after.header_at(listed[i - 1] as int).next == before.header_at(
                listed[i] as int,
            ).next
            &&& forall|b: int|
                0 <= b < before.len() && !(listed[i - 1] - before.base() <= b < listed[i - 1]
                    - before.base() + BLOCK_SIZE) ==> after@[b] == before@[b]
        },
    ensures
        forall|k: int|
            0 <= k < listed.remove(i).len() ==> (#[trigger] after.header_at(
                listed.remove(i)[k] as int,
            )).next == if k + 1 < listed.remove(i).len() {
                Some(listed.remove(i)[k + 1] as int)
            } else {
                None
            },
        regions(after, listed.remove(i)) == regions(before, listed).remove(i),
        after.header_at(listed[i] as int) == before.header_at(listed[i] as int),
{
    let kept = listed.remove(i);
    let all = regions(before, listed);
    if i > 0 {
        assert forall|k: int|
            0 <= k < listed.len() && (#[trigger] listed[k]) != listed[i - 1] implies listed[k]
            + BLOCK_SIZE <= listed[i - 1] || listed[i - 1] + BLOCK_SIZE <= listed[k] by {
            assert(all[k].can_host_header() && all[i - 1].can_host_header());
            assert(all[k].disjoint(all[i - 1]));
        }
        lemma_other_headers_kept(before, after, listed, listed[i - 1] as int);
    }
    assert forall|k: int| 0 <= k < listed.len() && k != i - 1 implies after.header_at(
        listed[k] as int,
    ) == before.header_at(listed[k] as int) by {
        if i > 0 {
            assert(all[k].can_host_header() && all[i - 1].can_host_header());
            assert(all[k].disjoint(all[i - 1]));
        }
    }
    assert forall|k: int| 0 <= k < kept.len() implies (#[trigger] after.header_at(
        kept[k] as int,
    )).next == if k + 1 < kept.len() {
        Some(kept[k + 1] as int)
    } else {
        None
    } by {
        let from = if k < i {
            k
        } else {
            k + 1
        };
        assert(kept[k] == listed[from]);
        if k == i - 1 {
            assert(before.header_at(listed[i] as int).next == if i + 1 < listed.len() {
                Some(listed[i + 1] as int)
            } else {
                None
            });
        } else {
            assert(after.header_at(listed[from] as int) == before.header_at(listed[from] as int));
            assert(before.header_at(listed[from] as int).next == if from + 1 < listed.len() {
                Some(listed[from + 1] as int)
            } else {
                None
            });
        }
    }
    assert forall|k: int| 0 <= k < kept.len() implies regions(after, kept)[k] == all.remove(
        i,
    )[k] by {
        let from = if k < i {
            k
        } else {
            k + 1
        };
        assert(kept[k] == listed[from]);
        if from != i - 1 {
            assert(after.header_at(listed[from] as int) == before.header_at(listed[from] as int));
        }
    }
    assert(regions(after, kept) =~= all.remove(i));
}

/// A chain of links has one reading: two lists that the same links lead
/// through, from the same head, agree place by place.
proof fn lemma_links_read_one_way(
    arena: Arena,
    head: Option<usize>,
    left: Seq<usize>,
    right: Seq<usize>,
    i: int,
)
    requires
        linked(arena, head, left),
        linked(arena, head, right),
        0 <= i,
    ensures
        i < left.len() <==> i < right.len(),
        i < left.len() ==> left[i] == right[i],
    decreases i,
{
    if i > 0 {
        lemma_links_read_one_way(arena, head, left, right, i - 1);
        if i - 1 < left.len() {
            let before = arena.header_at(left[i - 1] as int);
            assert(before == arena.header_at(right[i - 1] as int));
        }
    }
}

impl View for FreeListAllocator {
    type V = Seq<Region>;

    closed spec fn view(&self) -> Seq<Region> {
        regions(self.arena, self.blocks@)
    }
}

impl FreeListAllocator {
    /// The lowest address of the arena.
    pub closed spec fn heap_start(&self) -> int {
        self.arena.base()
    }

    /// One past the highest address of the arena.
    pub closed spec fn heap_end(&self) -> int {
        self.arena.end()
    }

    /// Whether `init` has been called.
    pub closed spec fn initialized(&self) -> bool {
        self.initialized
    }

    /// The links in the arena lead through the free list.
    pub closed spec fn links_hold(&self) -> bool {
        &&& self.arena.wf()
        &&& linked(self.arena, self.head, self.blocks@)
    }

    /// The invariant of the allocator: the links lead through the free list,
    /// the arena lies in the address space, and the free list is one of it.
    pub open spec fn wf(&self) -> bool {
        &&& self.links_hold()
        &&& self.heap_start() <= self.heap_end() <= usize::MAX
        &&& well_formed(self@, self.heap_start(), self.heap_end())
    }

    /// An allocator without an arena: it serves no request until `init`.
    pub fn new() -> (allocator: FreeListAllocator)
        ensures
            allocator.wf(),
            !allocator.initialized(),
            allocator@ == Seq::<Region>::empty(),
            allocator.heap_start() == 0,
            allocator.heap_end() == 0,
    {
        FreeListAllocator {
            arena: Arena::new(0, 0),
            head: None,
            initialized: false,
            blocks: Ghost(Seq::empty()),
        }
    }

    /// Whether `init` has been called.
    pub fn is_initialized(&self) -> (yes: bool)
        ensures
            yes == self.initialized(),
    {
        self.initialized
    }

    /// Hands the arena `[heap_start, heap_start + heap_size)` to the allocator,
    /// as one free region. An arena that cannot host a header (too small, or
    /// not at a header boundary) leaves the free list empty, without a signal.
    pub fn init(&mut self, heap_start: usize, heap_size: usize)
        requires
            !old(self).initialized(),
            heap_start + heap_size <= usize::MAX,
        ensures
            final(self).wf(),
            final(self).initialized(),
            final(self).heap_start() == heap_start,
            final(self).heap_end() == heap_start + heap_size,
            final(self)@ == after_insert(
                Seq::empty(),
                Region { start: heap_start as int, size: heap_size as int },
            ),
    {
        self.arena = Arena::new(heap_start, heap_size);
        self.head = None;
        self.blocks = Ghost(Seq::empty());
        self.initialized = true;
        self.insert_free_region(heap_start, heap_size);
    }

    /// The size and the alignment that a request is served with: the size is
    /// raised to that of a header and rounded up to the alignment, which is
    /// raised to that of a header. `None` means that the size does not fit in
    /// `usize`.
    pub fn adjust_layout(size: usize, alignment: usize) -> (adjusted: Option<(usize, usize)>)
        requires
            is_pow2(alignment as int),
        ensures
            match adjusted {
                Some((adjusted_size, adjusted_align)) => {
                    &&& adjusted_size == request_size(size as int, alignment as int)
                    &&& adjusted_align == request_align(alignment as int)
                },
                None => request_size(size as int, alignment as int) > usize::MAX,
            },
            is_pow2(request_align(alignment as int)),
    {
        proof {
            lemma_eight_is_pow2();
        }
        let adjusted_align = if alignment >= BLOCK_ALIGN {
            alignment
        } else {
            BLOCK_ALIGN
        };
        let at_least_header = if size >= BLOCK_SIZE {
            size
        } else {
            BLOCK_SIZE
        };
        match align_up_checked(at_least_header, adjusted_align) {
            Some(adjusted_size) => Some((adjusted_size, adjusted_align)),
            None => None,
        }
    }

    /// The fit test: whether `size` bytes fit into the region of `block` behind
    /// its first address that is a multiple of `alignment`, and that address.
    pub fn check_block_allocation(block: &Block, size: usize, alignment: usize) -> (fit: Result<
        usize,
        (),
    >)
        requires
            is_pow2(alignment as int),
            block.start + block.size <= usize::MAX,
        ensures
            match fit {
                Ok(addr) => {
                    &&& fits(block.region(), size as int, alignment as int)
                    &&& addr == align_up(block.start as int, alignment as int)
                },
                Err(_) => !fits(block.region(), size as int, alignment as int),
            },
    {
        let start_address = block.starting_addr();
        match align_up_checked(start_address, alignment) {
            Some(aligned_address) => match aligned_address.checked_add(size) {
                Some(allocation_end) => {
                    if allocation_end <= block.finishing_addr() {
                        Ok(aligned_address)
                    } else {
                        Err(())
                    }
                },
                None => Err(()),
            },
            None => Err(()),
        }
    }

    /// Puts the region `[addr, addr + size)` at the head of the free list. A
    /// region that cannot host a header is dropped without a signal.
    pub fn insert_free_region(&mut self, addr: usize, size: usize)
        requires
            old(self).wf(),
            (Region { start: addr as int, size: size as int }).can_host_header() ==> unused(
                old(self)@,
                old(self).heap_start(),
                old(self).heap_end(),
                Region { start: addr as int, size: size as int },
            ),
        ensures
            final(self).wf(),
            final(self).initialized() == old(self).initialized(),
            final(self).heap_start() == old(self).heap_start(),
            final(self).heap_end() == old(self).heap_end(),
            final(self)@ == after_insert(
                old(self)@,
                Region { start: addr as int, size: size as int },
            ),
    {
        if size < BLOCK_SIZE || addr % BLOCK_ALIGN != 0 {
            return ;
        }
        let ghost before = self.arena;
        let ghost region = Region { start: addr as int, size: size as int };
        proof {
            if self.blocks@.len() > 0 {
                assert(self@[0].can_host_header() && self@[0].within(
                    self.heap_start(),
                    self.heap_end(),
                ));
            }
            assert forall|i: int| 0 <= i < self.blocks@.len() implies self.blocks@[i] + BLOCK_SIZE
                <= addr || addr + BLOCK_SIZE <= self.blocks@[i] by {
                assert(self@[i].can_host_header() && self@[i].disjoint(region));
            }
        }
        self.arena.write_header_at(addr, size, self.head);
        self.head = Some(addr);
        proof {
            lemma_other_headers_kept(before, self.arena, self.blocks@, addr as int);
            let listed = seq![addr] + self.blocks@;
            assert forall|i: int| 0 <= i < listed.len() implies (#[trigger] self.arena.header_at(
                listed[i] as int,
            )).next == if i + 1 < listed.len() {
                Some(listed[i + 1] as int)
            } else {
                None
            } by {
                if i > 0 {
                    assert(listed[i] == self.blocks@[i - 1]);
                    assert(self.arena.header_at(self.blocks@[i - 1] as int) == before.header_at(
                        self.blocks@[i - 1] as int,
                    ));
                }
            }
            assert(regions(self.arena, listed) =~= seq![region] + regions(before, self.blocks@));
        }
        self.blocks = Ghost(seq![addr] + self.blocks@);
    }

    /// Takes the `i`-th entry out of the list: its predecessor, or the head,
    /// is made to link to its successor. Its own header stays as it is.
    fn unlink(&mut self, previous: Option<Block>, block: Block, Ghost(i): Ghost<int>)
        requires
            old(self).wf(),
            0 <= i < old(self)@.len(),
            block.region() == old(self)@[i],
            block.next.is_some() == (i + 1 < old(self)@.len()),
            block.next matches Some(next) ==> next == old(self)@[i + 1].start,
            previous.is_some() == (i > 0),
            previous matches Some(before) ==> before.region() == old(self)@[i - 1],
        ensures
            final(self).wf(),
            final(self).initialized() == old(self).initialized(),
            final(self).heap_start() == old(self).heap_start(),
            final(self).heap_end() == old(self).heap_end(),
            final(self)@ == old(self)@.remove(i),
            final(self).blocks@ == old(self).blocks@.remove(i),
            final(self).arena.header_at(block.start as int) == old(self).arena.header_at(
                block.start as int,
            ),
    {
        let ghost before = self.arena;
        let ghost listed = self.blocks@;
        match previous {
            Some(before_block) => {
                proof {
                    let last = regions(before, listed)[i - 1];
                    assert(last.can_host_header() && last.within(before.base(), before.end()));
                    if i + 1 < listed.len() {
                        let next = regions(before, listed)[i + 1];
                        assert(next.can_host_header() && next.within(before.base(), before.end()));
                    }
                }
                self.arena.write_header_at(before_block.start, before_block.size, block.next);
            },
            None => {
                self.head = block.next;
            },
        }
        self.blocks = Ghost(listed.remove(i));
        proof {
            lemma_unlink(before, self.arena, listed, i);
        }
    }

    /// Walks the free list for the first region that passes the fit test for
    /// `size` bytes at `alignment`, and takes it out of the list. Returns the
    /// region as its header described it, with the address of the allocation.
    pub fn find_block(&mut self, size: usize, alignment: usize) -> (found: Option<(Block, usize)>)
        requires
            old(self).wf(),
            is_pow2(alignment as int),
        ensures
            final(self).wf(),
            final(self).initialized() == old(self).initialized(),
            final(self).heap_start() == old(self).heap_start(),
            final(self).heap_end() == old(self).heap_end(),
            match first_fit(old(self)@, size as int, alignment as int) {
                Some(i) => {
                    &&& found matches Some((block, addr))
                    &&& block.region() == old(self)@[i]
                    &&& block.next.is_some() == (i + 1 < old(self)@.len())
                    &&& block.next matches Some(next) ==> next == old(self)@[i + 1].start
                    &&& addr == align_up(old(self)@[i].start, alignment as int)
                    &&& final(self)@ == old(self)@.remove(i)
                },
                None => found.is_none() && final(self)@ == old(self)@,
            },
    {
        let mut current_block = self.head;
        let mut previous_block: Option<Block> = None;
        let ghost mut i: int = 0;
        while current_block.is_some()
            invariant
                *self == *old(self),
                self.wf(),
                is_pow2(alignment as int),
                0 <= i <= self@.len(),
                current_block == if i < self@.len() {
                    Some(self.blocks@[i])
                } else {
                    None
                },
                previous_block.is_some() == (i > 0),
                previous_block matches Some(before) ==> before.region() == self@[i - 1],
                forall|j: int| 0 <= j < i ==> !fits(#[trigger] self@[j], size as int, alignment as int),
            decreases self@.len() - i,
        {
            let addr = current_block.unwrap();
            proof {
                assert(self@[i].can_host_header() && self@[i].within(
                    self.heap_start(),
                    self.heap_end(),
                ));
                if i + 1 < self@.len() {
                    assert(self@[i + 1].within(self.heap_start(), self.heap_end()));
                }
            }
            let block = self.arena.read_header_at(addr);
            match Self::check_block_allocation(&block, size, alignment) {
                Ok(allocation_address) => {
                    proof {
                        lemma_first_fit_is(self@, size as int, alignment as int, i);
                    }
                    self.unlink(previous_block, block, Ghost(i));
                    return Some((block, allocation_address));
                },
                Err(_) => {
                    previous_block = Some(block);
                    current_block = block.next;
                    proof {
                        i = i + 1;
                    }
                },
            }
        }
        proof {
            lemma_first_fit_none(self@, size as int, alignment as int);
        }
        None
    }

    /// Serves a request for `size` bytes at `alignment`, a power of two: the
    /// first free region that fits the adjusted request is taken out of the
    /// list, the allocation lies at its first suitably aligned address, and
    /// what is left behind the allocation goes back to the list if it can host
    /// a header. What lies before the allocation in that region is given up.
    /// `None` means that no free region fits: nothing changes then.
    pub fn allocate(&mut self, size: usize, alignment: usize) -> (addr: Option<usize>)
        requires
            old(self).wf(),
            is_pow2(alignment as int),
        ensures
            final(self).wf(),
            final(self).initialized() == old(self).initialized(),
            final(self).heap_start() == old(self).heap_start(),
            final(self).heap_end() == old(self).heap_end(),
            final(self)@ == after_request(old(self)@, size as int, alignment as int),
            match served(old(self)@, size as int, alignment as int) {
                Some(at) => addr == Some(at as usize) && at <= usize::MAX,
                None => addr.is_none(),
            },
            addr matches Some(a) ==> {
                &&& is_aligned(a as int, alignment as int)
                &&& final(self).heap_start() <= a
                &&& a + size <= final(self).heap_end()
                &&& unused(
                    final(self)@,
                    final(self).heap_start(),
                    final(self).heap_end(),
                    extent(a as int, size as int, alignment as int),
                )
            },
    {
        let ghost list = self@;
        let ghost want = request_size(size as int, alignment as int);
        let ghost at = request_align(alignment as int);
        proof {
            lemma_first_fit(list, want, at);
        }
        match Self::adjust_layout(size, alignment) {
            Some((adjusted_size, adjusted_align)) => {
                match self.find_block(adjusted_size, adjusted_align) {
                    Some((block, allocation_address)) => {
                        let ghost i = first_fit(list, want, at).unwrap();
                        proof {
                            assert(list[i].can_host_header() && list[i].within(
                                self.heap_start(),
                                self.heap_end(),
                            ));
                            lemma_align_up(list[i].start, at);
                            lemma_align_up(
                                if size >= BLOCK_SIZE {
                                    size as int
                                } else {
                                    BLOCK_SIZE as int
                                },
                                at,
                            );
                            lemma_aligned_to_smaller(
                                allocation_address as int,
                                alignment as int,
                                at,
                            );
                            assert forall|k: int| 0 <= k < self@.len() implies (
                            #[trigger] self@[k]).disjoint(list[i]) by {
                                let from = if k < i {
                                    k
                                } else {
                                    k + 1
                                };
                                assert(self@[k] == list[from]);
                                assert(list[from].disjoint(list[i]));
                            }
                        }
                        let allocation_end = allocation_address + adjusted_size;
                        let leftover = block.finishing_addr() - allocation_end;
                        self.insert_free_region(allocation_end, leftover);
                        Some(allocation_address)
                    },
                    None => None,
                }
            },
            None => {
                proof {
                    assert forall|j: int| 0 <= j < list.len() implies !fits(
                        #[trigger] list[j],
                        want,
                        at,
                    ) by {
                        assert(list[j].within(self.heap_start(), self.heap_end()));
                        lemma_align_up(list[j].start, at);
                    }
                }
                None
            },
        }
    }

    /// Walks the free list for the region that begins at `target` and takes it
    /// out of the list. Returns it with its place in the list.
    fn take_block_at(&mut self, target: usize) -> (taken: (Option<Block>, Ghost<int>))
        requires
            old(self).wf(),
        ensures
            final(self).wf(),
            final(self).initialized() == old(self).initialized(),
            final(self).heap_start() == old(self).heap_start(),
            final(self).heap_end() == old(self).heap_end(),
            match taken.0 {
                Some(block) => {
                    &&& 0 <= taken.1@ < old(self)@.len()
                    &&& block.region() == old(self)@[taken.1@]
                    &&& block.start == target
                    &&& final(self)@ == old(self)@.remove(taken.1@)
                    &&& final(self).blocks@ == old(self).blocks@.remove(taken.1@)
                },
                None => {
                    &&& *final(self) == *old(self)
                    &&& forall|j: int|
                        0 <= j < old(self)@.len() ==> (#[trigger] old(self)@[j]).start != target
                },
            },
    {
        let mut current_block = self.head;
        let mut previous_block: Option<Block> = None;
        let ghost mut i: int = 0;
        while current_block.is_some()
            invariant
                *self == *old(self),
                self.wf(),
                0 <= i <= self@.len(),
                current_block == if i < self@.len() {
                    Some(self.blocks@[i])
                } else {
                    None
                },
                previous_block.is_some() == (i > 0),
                previous_block matches Some(before) ==> before.region() == self@[i - 1],
                forall|j: int| 0 <= j < i ==> (#[trigger] self@[j]).start != target,
            decreases self@.len() - i,
        {
            let addr = current_block.unwrap();
            proof {
                assert(self@[i].can_host_header() && self@[i].within(
                    self.heap_start(),
                    self.heap_end(),
                ));
                if i + 1 < self@.len() {
                    assert(self@[i + 1].within(self.heap_start(), self.heap_end()));
                }
            }
            let block = self.arena.read_header_at(addr);
            if addr == target {
                self.unlink(previous_block, block, Ghost(i));
                return (Some(block), Ghost(i));
            }
            previous_block = Some(block);
            current_block = block.next;
            proof {
                i = i + 1;
            }
        }
        (None, Ghost(0))
    }

    /// Lets the `k`-th free region, which lies at `addr`, grow by the `extra`
    /// bytes behind it.
    fn grow_block(&mut self, addr: usize, extra: usize, Ghost(k): Ghost<int>)
        requires
            old(self).wf(),
            0 <= k < old(self)@.len(),
            old(self)@[k].start == addr,
            unused(
                old(self)@,
                old(self).heap_start(),
                old(self).heap_end(),
                Region { start: old(self)@[k].end(), size: extra as int },
            ),
        ensures
            final(self).wf(),
            final(self).initialized() == old(self).initialized(),
            final(self).heap_start() == old(self).heap_start(),
            final(self).heap_end() == old(self).heap_end(),
            final(self).blocks@ == old(self).blocks@,
            final(self)@ == old(self)@.update(
                k,
                Region { start: addr as int, size: old(self)@[k].size + extra },
            ),
    {
        let ghost before = self.arena;
        let ghost listed = self.blocks@;
        let ghost list = self@;
        proof {
            assert(list[k].can_host_header() && list[k].within(
                self.heap_start(),
                self.heap_end(),
            ));
            if k + 1 < list.len() {
                assert(list[k + 1].within(self.heap_start(), self.heap_end()));
            }
            assert forall|m: int|
                0 <= m < listed.len() && (#[trigger] listed[m]) != addr implies listed[m]
                + BLOCK_SIZE <= addr || addr + BLOCK_SIZE <= listed[m] by {
                assert(list[m].can_host_header() && list[m].disjoint(list[k]));
            }
        }
        let header = self.arena.read_header_at(addr);
        self.arena.write_header_at(addr, header.size + extra, header.next);
        proof {
            lemma_other_headers_kept(before, self.arena, listed, addr as int);
            let grown = Region { start: addr as int, size: list[k].size + extra };
            assert forall|m: int| 0 <= m < listed.len() implies self.arena.header_at(
                #[trigger] listed[m] as int,
            ).next == before.header_at(listed[m] as int).next && regions(self.arena, listed)[m]
                == list.update(k, grown)[m] by {
                if m != k {
                    assert(list[m].disjoint(list[k]) && list[m].can_host_header());
                }
            }
            assert(regions(self.arena, listed) =~= list.update(k, grown));
            let now = list.update(k, grown);
            assert forall|m: int, n: int|
                0 <= m < now.len() && 0 <= n < now.len() && m != n implies (#[trigger] now[m]).disjoint(
            #[trigger] now[n]) by {
                assert(list[m].disjoint(list[n]));
                assert(list[m].disjoint(Region { start: list[k].end(), size: extra as int }));
                assert(list[n].disjoint(Region { start: list[k].end(), size: extra as int }));
                assert(list[m].can_host_header() && list[n].can_host_header());
            }
            assert forall|m: int| 0 <= m < now.len() implies (#[trigger] now[m]).can_host_header()
                && now[m].within(self.heap_start(), self.heap_end()) by {
                assert(list[m].can_host_header() && list[m].within(
                    self.heap_start(),
                    self.heap_end(),
                ));
            }
        }
    }

    /// Merges adjoining free regions: wherever one free region ends where
    /// another begins, the first takes the second in, until no two adjoin.
    /// Every pair of free regions is looked at, whatever their order in the
    /// list.
    pub fn merge_free_blocks(&mut self)
        requires
            old(self).wf(),
        ensures
            final(self).wf(),
            final(self).initialized() == old(self).initialized(),
            final(self).heap_start() == old(self).heap_start(),
            final(self).heap_end() == old(self).heap_end(),
            final(self)@ == coalesced(old(self)@),
    {
        let mut current_block = self.head;
        let ghost mut k: int = 0;
        while current_block.is_some()
            invariant
                self.wf(),
                self.initialized() == old(self).initialized(),
                self.heap_start() == old(self).heap_start(),
                self.heap_end() == old(self).heap_end(),
                0 <= k <= self@.len(),
                current_block == if k < self@.len() {
                    Some(self.blocks@[k])
                } else {
                    None
                },
                coalesced(self@) == coalesced(old(self)@),
                forall|m: int, n: int|
                    0 <= m < k && 0 <= n < self@.len() ==> (#[trigger] self@[m]).end() != (
                    #[trigger] self@[n]).start,
            decreases 2 * self@.len() - k,
        {
            let addr = current_block.unwrap();
            let ghost list = self@;
            proof {
                assert(list[k].can_host_header() && list[k].within(
                    self.heap_start(),
                    self.heap_end(),
                ));
                if k + 1 < list.len() {
                    assert(list[k + 1].within(self.heap_start(), self.heap_end()));
                }
            }
            let block = self.arena.read_header_at(addr);
            let (taken, Ghost(j)) = self.take_block_at(block.finishing_addr());
            match taken {
                Some(follower) => {
                    let ghost at = if j < k {
                        k - 1
                    } else {
                        k
                    };
                    proof {
                        lemma_absorbed(list, self.heap_start(), self.heap_end(), k, j);
                        lemma_absorbed_in_steps(list, self.heap_start(), self.heap_end(), k, j);
                    }
                    self.grow_block(addr, follower.size, Ghost(at));
                    proof {
                        k = at;
                    }
                },
                None => {
                    current_block = block.next;
                    proof {
                        assert forall|n: int| 0 <= n < list.len() implies list[k].end() != (
                        #[trigger] list[n]).start by {}
                        k = k + 1;
                    }
                },
            }
        }
        proof {
            assert(!has_adjoining(self@));
            lemma_settled(self@, self.heap_start(), self.heap_end());
        }
    }

    /// Takes back the region that `allocate` handed out for `size` bytes at
    /// `alignment`: it becomes the first entry of the free list, and adjoining
    /// free regions are merged.
    pub fn deallocate(&mut self, addr: usize, size: usize, alignment: usize)
        requires
            old(self).wf(),
            is_pow2(alignment as int),
            unused(
                old(self)@,
                old(self).heap_start(),
                old(self).heap_end(),
                extent(addr as int, size as int, alignment as int),
            ),
        ensures
            final(self).wf(),
            final(self).initialized() == old(self).initialized(),
            final(self).heap_start() == old(self).heap_start(),
            final(self).heap_end() == old(self).heap_end(),
            final(self)@ == after_release(
                old(self)@,
                addr as int,
                size as int,
                alignment as int,
            ),
    {
        match Self::adjust_layout(size, alignment) {
            Some((adjusted_size, _)) => {
                self.insert_free_region(addr, adjusted_size);
                self.merge_free_blocks();
            },
            None => {},
        }
    }

    /// The free regions, in the order of the free list.
    pub fn free_blocks(&self) -> (blocks: Vec<Block>)
        requires
            self.wf(),
        ensures
            blocks@.len() == self@.len(),
            forall|i: int|
                0 <= i < self@.len() ==> {
                    &&& (#[trigger] blocks@[i]).region() == self@[i]
                    &&& blocks@[i].next.is_some() == (i + 1 < self@.len())
                    &&& blocks@[i].next matches Some(next) ==> next == self@[i + 1].start
                },
    {
        let mut blocks: Vec<Block> = Vec::new();
        let mut current_block = self.head;
        while current_block.is_some()
            invariant
                self.wf(),
                blocks@.len() <= self@.len(),
                current_block == if blocks@.len() < self@.len() {
                    Some(self.blocks@[blocks@.len() as int])
                } else {
                    None
                },
                forall|i: int|
                    0 <= i < blocks@.len() ==> {
                        &&& (#[trigger] blocks@[i]).region() == self@[i]
                        &&& blocks@[i].next.is_some() == (i + 1 < self@.len())
                        &&& blocks@[i].next matches Some(next) ==> next == self@[i + 1].start
                    },
            decreases self@.len() - blocks@.len(),
        {
            let addr = current_block.unwrap();
            let ghost i = blocks@.len() as int;
            proof {
                assert(self@[i].can_host_header() && self@[i].within(
                    self.heap_start(),
                    self.heap_end(),
                ));
                if i + 1 < self@.len() {
                    assert(self@[i + 1].within(self.heap_start(), self.heap_end()));
                }
            }
            let block = self.arena.read_header_at(addr);
            blocks.push(block);
            current_block = block.next;
        }
        blocks
    }

    /// Whether `[addr, addr + size)` lies in the arena and touches no free
    /// region: the test of what `insert_free_region` asks of a region.
    pub fn is_unused(&self, addr: usize, size: usize) -> (yes: bool)
        requires
            self.wf(),
        ensures
            yes == unused(
                self@,
                self.heap_start(),
                self.heap_end(),
                Region { start: addr as int, size: size as int },
            ),
    {
        let ghost region = Region { start: addr as int, size: size as int };
        let arena_start = self.arena.start_address();
        let end = match addr.checked_add(size) {
            Some(end) => end,
            None => {
                return false;
            },
        };
        if addr < arena_start || end - arena_start > self.arena.size() {
            return false;
        }
        let mut current_block = self.head;
        let ghost mut i: int = 0;
        while current_block.is_some()
            invariant
                self.wf(),
                region.within(self.heap_start(), self.heap_end()),
                region == (Region { start: addr as int, size: size as int }),
                end == addr + size,
                0 <= i <= self@.len(),
                current_block == if i < self@.len() {
                    Some(self.blocks@[i])
                } else {
                    None
                },
                forall|j: int| 0 <= j < i ==> (#[trigger] self@[j]).disjoint(region),
            decreases self@.len() - i,
        {
            let block_addr = current_block.unwrap();
            proof {
                assert(self@[i].can_host_header() && self@[i].within(
                    self.heap_start(),
                    self.heap_end(),
                ));
                if i + 1 < self@.len() {
                    assert(self@[i + 1].within(self.heap_start(), self.heap_end()));
                }
            }
            let block = self.arena.read_header_at(block_addr);
            if !(block.finishing_addr() <= addr || end <= block.starting_addr()) {
                assert(!self@[i].disjoint(region));
                return false;
            }
            current_block = block.next;
            proof {
                i = i + 1;
            }
        }
        true
    }

    /// The free list is read off the arena: two allocators whose arenas hold
    /// the same bytes and whose lists begin at the same place have the same
    /// free list.
    pub proof fn lemma_view_is_read_off(&self, other: &FreeListAllocator)
        requires
            self.wf(),
            other.wf(),
            self.same_memory(other),
        ensures
            self@ == other@,
    {
        assert forall|i: int| 0 <= i < self.blocks@.len() || 0 <= i < other.blocks@.len() implies i
            < self.blocks@.len() && i < other.blocks@.len() && self.blocks@[i]
            == other.blocks@[i] by {
            lemma_links_read_one_way(self.arena, self.head, self.blocks@, other.blocks@, i);
        }
        if self.blocks@.len() != other.blocks@.len() {
            let longer = if self.blocks@.len() < other.blocks@.len() {
                self.blocks@.len() as int
            } else {
                other.blocks@.len() as int
            };
            lemma_links_read_one_way(self.arena, self.head, self.blocks@, other.blocks@, longer);
        }
        assert(self.blocks@ =~= other.blocks@);
    }

    /// Whether the two allocators have the same arena, byte for byte, and
    /// their free lists begin at the same place.
    pub closed spec fn same_memory(&self, other: &FreeListAllocator) -> bool {
        self.arena == other.arena && self.head == other.head
    }
}

} // verus!
