//! The mathematical model of the free list: a sequence of regions, and what
//! allocation, release and merging do to it.

use crate::align::{align_up, is_aligned, lemma_align_up};
use crate::block::{BLOCK_ALIGN, BLOCK_SIZE};
use vstd::prelude::*;

verus! {

/// A range of addresses `[start, start + size)`.
pub struct Region {
    pub start: int,
    pub size: int,
}

impl Region {
    /// One past the last address of the region.
    pub open spec fn end(self) -> int {
        self.start + self.size
    }

    /// Whether `addr` lies in the region.
    pub open spec fn contains(self, addr: int) -> bool {
        self.start <= addr < self.end()
    }

    /// Whether the two regions share no address.
    pub open spec fn disjoint(self, other: Region) -> bool {
        self.end() <= other.start || other.end() <= self.start
    }

    /// Whether the region lies in `[low, high)`.
    pub open spec fn within(self, low: int, high: int) -> bool {
        low <= self.start && self.end() <= high
    }

    /// Whether a region header can be written at the start of the region: the
    /// region is large enough for it and begins at a header boundary.
    pub open spec fn can_host_header(self) -> bool {
        self.size >= BLOCK_SIZE && is_aligned(self.start, BLOCK_ALIGN as int)
    }
}

/// A free list of an arena `[low, high)`: every region can host its header and
/// lies in the arena, and no two regions overlap.
pub open spec fn well_formed(list: Seq<Region>, low: int, high: int) -> bool {
    &&& forall|i: int|
        0 <= i < list.len() ==> (#[trigger] list[i]).can_host_header() && list[i].within(
            low,
            high,
        )
    &&& forall|i: int, j: int|
        0 <= i < list.len() && 0 <= j < list.len() && i != j ==> (#[trigger] list[i]).disjoint(
            #[trigger] list[j],
        )
}

/// Whether some region of the list contains `addr`.
pub open spec fn covered(list: Seq<Region>, addr: int) -> bool {
    exists|i: int| 0 <= i < list.len() && (#[trigger] list[i]).contains(addr)
}

/// Whether `region` lies in the arena `[low, high)` and touches no free region.
pub open spec fn unused(list: Seq<Region>, low: int, high: int, region: Region) -> bool {
    &&& region.size >= 0
    &&& region.within(low, high)
    &&& forall|i: int| 0 <= i < list.len() ==> (#[trigger] list[i]).disjoint(region)
}

/// The number of free bytes.
pub open spec fn free_bytes(list: Seq<Region>) -> int
    decreases list.len(),
{
    if list.len() == 0 {
        0
    } else {
        free_bytes(list.drop_last()) + list.last().size
    }
}

/// The alignment that a request is served with: at least that of a header.
pub open spec fn request_align(alignment: int) -> int {
    if alignment >= BLOCK_ALIGN {
        alignment
    } else {
        BLOCK_ALIGN as int
    }
}

/// The number of bytes that a request is served with: at least a header, and
/// a multiple of the request's alignment.
pub open spec fn request_size(size: int, alignment: int) -> int {
    align_up(
        if size >= BLOCK_SIZE {
            size
        } else {
            BLOCK_SIZE as int
        },
        request_align(alignment),
    )
}

/// Whether `size` bytes fit into `region` behind its first address that is a
/// multiple of `align`.
pub open spec fn fits(region: Region, size: int, align: int) -> bool {
    align_up(region.start, align) + size <= region.end()
}

/// The place in the list of the first region that fits, if any does.
pub open spec fn first_fit(list: Seq<Region>, size: int, align: int) -> Option<int>
    decreases list.len(),
{
    if list.len() == 0 {
        None
    } else {
        match first_fit(list.drop_last(), size, align) {
            Some(i) => Some(i),
            None => if fits(list.last(), size, align) {
                Some(list.len() - 1)
            } else {
                None
            },
        }
    }
}

/// The list after `region` has been handed back: it becomes the first entry, or
/// is dropped if it cannot host a header.
pub open spec fn after_insert(list: Seq<Region>, region: Region) -> Seq<Region> {
    if region.can_host_header() {
        seq![region] + list
    } else {
        list
    }
}

/// What is left of `region` behind `size` bytes taken at its first address that
/// is a multiple of `align`.
pub open spec fn tail_of(region: Region, size: int, align: int) -> Region {
    Region {
        start: align_up(region.start, align) + size,
        size: region.end() - (align_up(region.start, align) + size),
    }
}

/// The address that a request for `size` bytes at `align` is served with: the
/// first suitably aligned address of the first region that fits.
pub open spec fn alloc_addr(list: Seq<Region>, size: int, align: int) -> Option<int> {
    match first_fit(list, size, align) {
        Some(i) => Some(align_up(list[i].start, align)),
        None => None,
    }
}

/// The list after a request for `size` bytes at `align` has been served: the
/// first region that fits leaves the list, and what is left of it behind the
/// allocation comes back as the first entry if it can host a header.
pub open spec fn after_alloc(list: Seq<Region>, size: int, align: int) -> Seq<Region> {
    match first_fit(list, size, align) {
        Some(i) => after_insert(list.remove(i), tail_of(list[i], size, align)),
        None => list,
    }
}

/// The bytes that are set aside for an allocation of `size` bytes at
/// `alignment` that is served with `addr`.
pub open spec fn extent(addr: int, size: int, alignment: int) -> Region {
    Region { start: addr, size: request_size(size, alignment) }
}

/// The address that a request for `size` bytes at `alignment` is served with.
/// `None` means that the request is turned down.
pub open spec fn served(list: Seq<Region>, size: int, alignment: int) -> Option<int> {
    alloc_addr(list, request_size(size, alignment), request_align(alignment))
}

/// The list after a request for `size` bytes at `alignment` has been served
/// or turned down.
pub open spec fn after_request(list: Seq<Region>, size: int, alignment: int) -> Seq<Region> {
    after_alloc(list, request_size(size, alignment), request_align(alignment))
}

/// `first_fit` finds a region that fits and that no fitting region precedes;
/// it finds none only if none fits.
pub proof fn lemma_first_fit(list: Seq<Region>, size: int, align: int)
    ensures
        match first_fit(list, size, align) {
            Some(i) => {
                &&& 0 <= i < list.len()
                &&& fits(list[i], size, align)
                &&& forall|j: int| 0 <= j < i ==> !fits(#[trigger] list[j], size, align)
            },
            None => forall|j: int| 0 <= j < list.len() ==> !fits(#[trigger] list[j], size, align),
        },
    decreases list.len(),
{
    if list.len() > 0 {
        let front = list.drop_last();
        lemma_first_fit(front, size, align);
        assert(forall|j: int| 0 <= j < front.len() ==> front[j] == list[j]);
    }
}

/// The first region that fits is what `first_fit` finds.
pub proof fn lemma_first_fit_is(list: Seq<Region>, size: int, align: int, i: int)
    requires
        0 <= i < list.len(),
        fits(list[i], size, align),
        forall|j: int| 0 <= j < i ==> !fits(#[trigger] list[j], size, align),
    ensures
        first_fit(list, size, align) == Some(i),
{
    lemma_first_fit(list, size, align);
}

/// Where no region fits, `first_fit` finds none.
pub proof fn lemma_first_fit_none(list: Seq<Region>, size: int, align: int)
    requires
        forall|j: int| 0 <= j < list.len() ==> !fits(#[trigger] list[j], size, align),
    ensures
        first_fit(list, size, align).is_none(),
{
    lemma_first_fit(list, size, align);
}

/// No region of a free list has more bytes than the list has in all.
pub proof fn lemma_free_bytes_bound(list: Seq<Region>)
    requires
        forall|k: int| 0 <= k < list.len() ==> (#[trigger] list[k]).size >= 0,
    ensures
        0 <= free_bytes(list),
        forall|k: int| 0 <= k < list.len() ==> (#[trigger] list[k]).size <= free_bytes(list),
    decreases list.len(),
{
    if list.len() > 0 {
        let front = list.drop_last();
        assert forall|k: int| 0 <= k < front.len() implies (#[trigger] front[k]).size >= 0 by {
            assert(front[k] == list[k]);
        }
        lemma_free_bytes_bound(front);
        assert(list.last() == list[list.len() - 1]);
        assert forall|k: int| 0 <= k < list.len() implies (#[trigger] list[k]).size <= free_bytes(
            list,
        ) by {
            if k < front.len() {
                assert(front[k] == list[k]);
            }
        }
    }
}

/// Taking a region out of the list takes its bytes out of the free bytes.
pub proof fn lemma_free_bytes_remove(list: Seq<Region>, i: int)
    requires
        0 <= i < list.len(),
    ensures
        free_bytes(list.remove(i)) == free_bytes(list) - list[i].size,
    decreases list.len(),
{
    if i == list.len() - 1 {
        assert(list.remove(i) =~= list.drop_last());
    } else {
        lemma_free_bytes_remove(list.drop_last(), i);
        assert(list.remove(i).drop_last() =~= list.drop_last().remove(i));
        assert(list.remove(i).last() == list.last());
    }
}

/// Putting a region in front of the list adds its bytes to the free bytes.
pub proof fn lemma_free_bytes_insert(list: Seq<Region>, region: Region)
    ensures
        free_bytes(seq![region] + list) == free_bytes(list) + region.size,
    decreases list.len(),
{
    let longer = seq![region] + list;
    if list.len() == 0 {
        assert(longer.drop_last() =~= Seq::<Region>::empty());
        assert(free_bytes(longer.drop_last()) == 0);
        assert(longer.last() == region);
    } else {
        lemma_free_bytes_insert(list.drop_last(), region);
        assert(longer.drop_last() =~= seq![region] + list.drop_last());
        assert(longer.last() == list.last());
    }
}

/// Changing the size of one region changes the free bytes by as much.
pub proof fn lemma_free_bytes_update(list: Seq<Region>, i: int, region: Region)
    requires
        0 <= i < list.len(),
    ensures
        free_bytes(list.update(i, region)) == free_bytes(list) - list[i].size + region.size,
    decreases list.len(),
{
    let changed = list.update(i, region);
    if i == list.len() - 1 {
        assert(changed.drop_last() =~= list.drop_last());
    } else {
        lemma_free_bytes_update(list.drop_last(), i, region);
        assert(changed.drop_last() =~= list.drop_last().update(i, region));
        assert(changed.last() == list.last());
    }
}

/// What serving a request does to a free list: the list stays a free list of
/// its arena and covers no address that it did not cover before; the bytes
/// handed out were free before and are free no more; and the free bytes fall
/// by at least the size of the request.
pub proof fn lemma_after_alloc(list: Seq<Region>, low: int, high: int, size: int, align: int)
    requires
        well_formed(list, low, high),
        size >= 0,
        align > 0,
    ensures
        well_formed(after_alloc(list, size, align), low, high),
        forall|addr: int|
            covered(after_alloc(list, size, align), addr) ==> #[trigger] covered(list, addr),
        match alloc_addr(list, size, align) {
            Some(served) => {
                &&& low <= served
                &&& served + size <= high
                &&& is_aligned(served, align)
                &&& forall|addr: int|
                    served <= addr < served + size ==> #[trigger] covered(list, addr) && !covered(
                        after_alloc(list, size, align),
                        addr,
                    )
                &&& free_bytes(after_alloc(list, size, align)) <= free_bytes(list) - size
            },
            None => after_alloc(list, size, align) == list,
        },
{
    lemma_first_fit(list, size, align);
    if let Some(i) = first_fit(list, size, align) {
        let taken = list[i];
        let rest = list.remove(i);
        let tail = tail_of(taken, size, align);
        let after = after_alloc(list, size, align);
        let served = align_up(taken.start, align);
        lemma_align_up(taken.start, align);
        assert(taken.can_host_header() && taken.within(low, high));
        assert forall|k: int| 0 <= k < rest.len() implies (#[trigger] rest[k]).can_host_header()
            && rest[k].within(low, high) && rest[k].disjoint(taken) by {
            let from = if k < i {
                k
            } else {
                k + 1
            };
            assert(rest[k] == list[from]);
            assert(list[from].can_host_header() && list[from].within(low, high));
            assert(list[from].disjoint(list[i]));
        }
        assert forall|k: int, m: int|
            0 <= k < rest.len() && 0 <= m < rest.len() && k != m implies (#[trigger] rest[k]).disjoint(
        #[trigger] rest[m]) by {
            let from_k = if k < i {
                k
            } else {
                k + 1
            };
            let from_m = if m < i {
                m
            } else {
                m + 1
            };
            assert(rest[k] == list[from_k] && rest[m] == list[from_m]);
            assert(list[from_k].disjoint(list[from_m]));
        }
        lemma_free_bytes_remove(list, i);
        if tail.can_host_header() {
            lemma_free_bytes_insert(rest, tail);
            assert forall|k: int| 0 <= k < after.len() implies (#[trigger] after[k]).can_host_header()
                && after[k].within(low, high) && (k > 0 ==> after[k].disjoint(taken)) by {
                if k > 0 {
                    assert(after[k] == rest[k - 1]);
                }
            }
            assert forall|k: int, m: int|
                0 <= k < after.len() && 0 <= m < after.len() && k != m implies (
            #[trigger] after[k]).disjoint(#[trigger] after[m]) by {
                if k > 0 {
                    assert(after[k] == rest[k - 1]);
                }
                if m > 0 {
                    assert(after[m] == rest[m - 1]);
                }
                if k > 0 && m > 0 {
                    assert(rest[k - 1].disjoint(rest[m - 1]));
                }
            }
        }
        assert forall|addr: int| covered(after, addr) implies #[trigger] covered(list, addr)
            && !(served <= addr < served + size) by {
            let k = choose|k: int| 0 <= k < after.len() && (#[trigger] after[k]).contains(addr);
            if tail.can_host_header() && k == 0 {
                assert(list[i].contains(addr));
            } else {
                let in_rest = if tail.can_host_header() {
                    k - 1
                } else {
                    k
                };
                let from = if in_rest < i {
                    in_rest
                } else {
                    in_rest + 1
                };
                assert(after[k] == rest[in_rest]);
                assert(rest[in_rest] == list[from]);
                assert(rest[in_rest].disjoint(taken));
                assert(list[from].contains(addr));
            }
        }
        assert forall|addr: int| served <= addr < served + size implies #[trigger] covered(
            list,
            addr,
        ) && !covered(after, addr) by {
            assert(list[i].contains(addr));
        }
    }
}

} // verus!
