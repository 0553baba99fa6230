//! What holds of the allocator over whole histories of requests.
//!
//! A caller is modelled as a heap: the free list, and the allocations that the
//! caller holds. Steps are requests to allocate and to hand back one of the held
//! allocations; they act on the free list exactly as `allocate` and `deallocate`
//! are specified to.

use crate::align::{
    align_up, is_aligned, lemma_align_up, lemma_aligned_to_smaller, lemma_eight_is_pow2,
};
use crate::block::{BLOCK_ALIGN, BLOCK_SIZE};
use crate::coalesce::{after_dealloc, after_release, has_adjoining, lemma_after_dealloc};
use crate::free_list::{
    after_alloc, after_insert, after_request, alloc_addr, covered, extent, first_fit, fits,
    free_bytes, lemma_after_alloc, lemma_first_fit, lemma_first_fit_is, lemma_free_bytes_bound,
    lemma_free_bytes_insert, request_align, request_size, served, tail_of, unused, well_formed,
    Region,
};
use vstd::arithmetic::power2::is_pow2;
use vstd::prelude::*;

verus! {

/// An allocation that a caller holds: the address that it was served with, and
/// the size and alignment that it asked for.
pub struct Allocation {
    pub addr: int,
    pub size: int,
    pub alignment: int,
}

impl Allocation {
    /// The bytes that the caller asked for.
    pub open spec fn requested(self) -> Region {
        Region { start: self.addr, size: self.size }
    }

    /// The bytes that the allocator set aside for the allocation.
    pub open spec fn extent(self) -> Region {
        extent(self.addr, self.size, self.alignment)
    }
}

/// A request of a caller.
pub enum Step {
    /// Ask for `size` bytes at `alignment`.
    Allocate { size: int, alignment: int },
    /// Hand back the held allocation at place `which`.
    Deallocate { which: int },
}

/// The free list together with the allocations that the caller holds.
pub struct Heap {
    pub free: Seq<Region>,
    pub held: Seq<Allocation>,
}

/// The heap right after `init` with the arena `[base, base + size)`.
pub open spec fn fresh(base: int, size: int) -> Heap {
    Heap {
        free: after_insert(Seq::empty(), Region { start: base, size: size }),
        held: Seq::empty(),
    }
}

/// Whether a caller may make the request: sizes are not negative, alignments
/// are powers of two, and only what is held is handed back.
pub open spec fn permitted(heap: Heap, step: Step) -> bool {
    match step {
        Step::Allocate { size, alignment } => size >= 0 && is_pow2(alignment),
        Step::Deallocate { which } => 0 <= which < heap.held.len(),
    }
}

/// The heap after the request.
pub open spec fn next(heap: Heap, step: Step) -> Heap {
    match step {
        Step::Allocate { size, alignment } => match served(heap.free, size, alignment) {
            Some(addr) => Heap {
                free: after_request(heap.free, size, alignment),
                held: heap.held.push(Allocation { addr, size, alignment }),
            },
            None => heap,
        },
        Step::Deallocate { which } => Heap {
            free: after_release(
                heap.free,
                heap.held[which].addr,
                heap.held[which].size,
                heap.held[which].alignment,
            ),
            held: heap.held.remove(which),
        },
    }
}

/// The heap after the requests, made in their order.
pub open spec fn run(heap: Heap, steps: Seq<Step>) -> Heap
    decreases steps.len(),
{
    if steps.len() == 0 {
        heap
    } else {
        next(run(heap, steps.drop_last()), steps.last())
    }
}

/// Whether each of the requests is permitted when it is made.
pub open spec fn all_permitted(heap: Heap, steps: Seq<Step>) -> bool
    decreases steps.len(),
{
    steps.len() == 0 || (all_permitted(heap, steps.drop_last()) && permitted(
        run(heap, steps.drop_last()),
        steps.last(),
    ))
}

/// The bytes set aside for the held allocations.
pub open spec fn held_bytes(held: Seq<Allocation>) -> int
    decreases held.len(),
{
    if held.len() == 0 {
        0
    } else {
        held_bytes(held.drop_last()) + held.last().extent().size
    }
}

/// What holds of a heap of the arena `[low, high)` at all times: the free
/// list is one of the arena; every held allocation lies in the arena and none
/// of its bytes is free; no two held allocations overlap; and the held and
/// the free bytes together are no more than the arena.
pub open spec fn consistent(heap: Heap, low: int, high: int) -> bool {
    &&& well_formed(heap.free, low, high)
    &&& forall|i: int|
        0 <= i < heap.held.len() ==> {
            &&& (#[trigger] heap.held[i]).extent().within(low, high)
            &&& 0 <= heap.held[i].size <= heap.held[i].extent().size
        }
    &&& forall|i: int, addr: int|
        0 <= i < heap.held.len() && (#[trigger] heap.held[i]).extent().contains(addr)
            ==> !#[trigger] covered(heap.free, addr)
    &&& forall|i: int, j: int|
        0 <= i < heap.held.len() && 0 <= j < heap.held.len() && i != j ==> (
        #[trigger] heap.held[i]).extent().disjoint((#[trigger] heap.held[j]).extent())
    &&& held_bytes(heap.held) + free_bytes(heap.free) <= high - low
}

/// Handing back a held allocation takes its bytes out of the held bytes.
proof fn lemma_held_bytes_remove(held: Seq<Allocation>, i: int)
    requires
        0 <= i < held.len(),
    ensures
        held_bytes(held.remove(i)) == held_bytes(held) - held[i].extent().size,
    decreases held.len(),
{
    if i == held.len() - 1 {
        assert(held.remove(i) =~= held.drop_last());
    } else {
        lemma_held_bytes_remove(held.drop_last(), i);
        assert(held.remove(i).drop_last() =~= held.drop_last().remove(i));
        assert(held.remove(i).last() == held.last());
    }
}

/// The size that a request is served with is at least a header, at least the
/// size asked for, and a multiple of the alignment that it is served with,
/// which is a power of two and a multiple of the alignment of a header.
pub proof fn lemma_request(size: int, alignment: int)
    requires
        size >= 0,
        is_pow2(alignment),
    ensures
        request_size(size, alignment) >= BLOCK_SIZE,
        request_size(size, alignment) >= size,
        request_align(alignment) >= BLOCK_ALIGN,
        request_align(alignment) >= alignment,
        is_pow2(request_align(alignment)),
        is_aligned(request_size(size, alignment), request_align(alignment)),
        is_aligned(request_size(size, alignment), BLOCK_ALIGN as int),
        is_aligned(request_align(alignment), alignment),
{
    lemma_eight_is_pow2();
    let least = if size >= BLOCK_SIZE {
        size
    } else {
        BLOCK_SIZE as int
    };
    lemma_align_up(least, request_align(alignment));
    lemma_aligned_to_smaller(
        request_size(size, alignment),
        BLOCK_ALIGN as int,
        request_align(alignment),
    );
    lemma_aligned_to_smaller(request_size(size, alignment), alignment, request_align(alignment));
}

/// A fresh heap is consistent.
pub proof fn lemma_fresh_consistent(base: int, size: int)
    requires
        size >= 0,
    ensures
        consistent(fresh(base, size), base, base + size),
{
    let region = Region { start: base, size: size };
    let empty = Seq::<Region>::empty();
    if region.can_host_header() {
        lemma_free_bytes_insert(empty, region);
        assert(free_bytes(empty) == 0);
    }
}

/// In a consistent heap, the bytes set aside for a held allocation lie in the
/// arena and touch no free region: the allocation can be handed back.
pub proof fn lemma_held_is_unused(heap: Heap, low: int, high: int, which: int)
    requires
        consistent(heap, low, high),
        0 <= which < heap.held.len(),
    ensures
        unused(heap.free, low, high, heap.held[which].extent()),
{
    let region = heap.held[which].extent();
    assert(region.within(low, high));
    assert forall|k: int| 0 <= k < heap.free.len() implies (#[trigger] heap.free[k]).disjoint(
        region,
    ) by {
        let other = heap.free[k];
        assert(other.can_host_header());
        if !other.disjoint(region) {
            let shared = if other.start >= region.start {
                other.start
            } else {
                region.start
            };
            assert(other.contains(shared) && region.contains(shared));
            assert(covered(heap.free, shared));
        }
    }
}

/// A permitted request keeps a consistent heap consistent.
pub proof fn lemma_next_consistent(heap: Heap, low: int, high: int, step: Step)
    requires
        consistent(heap, low, high),
        permitted(heap, step),
    ensures
        consistent(next(heap, step), low, high),
{
    let after = next(heap, step);
    match step {
        Step::Allocate { size, alignment } => {
            let adjusted_size = request_size(size, alignment);
            let adjusted_align = request_align(alignment);
            lemma_request(size, alignment);
            lemma_after_alloc(heap.free, low, high, adjusted_size, adjusted_align);
            if let Some(addr) = alloc_addr(heap.free, adjusted_size, adjusted_align) {
                let fresh_one = Allocation { addr, size, alignment };
                let at = heap.held.len() as int;
                assert(after.held[at] == fresh_one);
                assert(after.held.drop_last() =~= heap.held);
                assert forall|i: int, a: int|
                    0 <= i < after.held.len() && (#[trigger] after.held[i]).extent().contains(
                        a,
                    ) implies !#[trigger] covered(after.free, a) by {
                    if i < at {
                        assert(after.held[i] == heap.held[i]);
                        assert(!covered(heap.free, a));
                    } else {
                        assert(covered(heap.free, a) && !covered(after.free, a));
                    }
                }
                assert forall|i: int, j: int|
                    0 <= i < after.held.len() && 0 <= j < after.held.len() && i != j implies (
                #[trigger] after.held[i]).extent().disjoint((#[trigger] after.held[j]).extent()) by {
                    if i < at && j < at {
                        assert(heap.held[i].extent().disjoint(heap.held[j].extent()));
                    } else {
                        let old_one = if i < at {
                            i
                        } else {
                            j
                        };
                        let mine = heap.held[old_one].extent();
                        let theirs = fresh_one.extent();
                        assert(after.held[old_one] == heap.held[old_one]);
                        if !mine.disjoint(theirs) {
                            let shared = if mine.start >= theirs.start {
                                mine.start
                            } else {
                                theirs.start
                            };
                            assert(mine.contains(shared) && theirs.contains(shared));
                            assert(covered(heap.free, shared));
                        }
                    }
                }
            }
        },
        Step::Deallocate { which } => {
            let region = heap.held[which].extent();
            lemma_held_is_unused(heap, low, high, which);
            lemma_after_dealloc(heap.free, low, high, region);
            lemma_held_bytes_remove(heap.held, which);
            assert forall|i: int| 0 <= i < after.held.len() implies {
                &&& (#[trigger] after.held[i]).extent().within(low, high)
                &&& 0 <= after.held[i].size <= after.held[i].extent().size
                &&& after.held[i].extent().disjoint(region)
            } by {
                let from = if i < which {
                    i
                } else {
                    i + 1
                };
                assert(after.held[i] == heap.held[from]);
                assert(heap.held[from].extent().disjoint(heap.held[which].extent()));
            }
            assert forall|i: int, a: int|
                0 <= i < after.held.len() && (#[trigger] after.held[i]).extent().contains(
                    a,
                ) implies !#[trigger] covered(after.free, a) by {
                let from = if i < which {
                    i
                } else {
                    i + 1
                };
                assert(after.held[i] == heap.held[from]);
                assert(!covered(heap.free, a));
                assert(after.held[i].extent().disjoint(region));
            }
            assert forall|i: int, j: int|
                0 <= i < after.held.len() && 0 <= j < after.held.len() && i != j implies (
            #[trigger] after.held[i]).extent().disjoint((#[trigger] after.held[j]).extent()) by {
                let from_i = if i < which {
                    i
                } else {
                    i + 1
                };
                let from_j = if j < which {
                    j
                } else {
                    j + 1
                };
                assert(after.held[i] == heap.held[from_i] && after.held[j] == heap.held[from_j]);
                assert(heap.held[from_i].extent().disjoint(heap.held[from_j].extent()));
            }
        },
    }
}

/// Permitted requests keep a consistent heap consistent.
pub proof fn lemma_run_consistent(heap: Heap, low: int, high: int, steps: Seq<Step>)
    requires
        consistent(heap, low, high),
        all_permitted(heap, steps),
    ensures
        consistent(run(heap, steps), low, high),
    decreases steps.len(),
{
    if steps.len() > 0 {
        lemma_run_consistent(heap, low, high, steps.drop_last());
        lemma_next_consistent(run(heap, steps.drop_last()), low, high, steps.last());
    }
}

/// Whatever a caller allocates and hands back on a fresh arena,
/// in whatever order, no two of the allocations that it holds share a byte,
/// and each of them lies in the arena.
pub proof fn lemma_no_overlap(base: int, size: int, steps: Seq<Step>)
    requires
        size >= 0,
        all_permitted(fresh(base, size), steps),
    ensures
        ({
            let held = run(fresh(base, size), steps).held;
            &&& forall|i: int, j: int|
                #![trigger held[i], held[j]]
                0 <= i < held.len() && 0 <= j < held.len() && i != j ==> {
                    &&& held[i].extent().disjoint(held[j].extent())
                    &&& held[i].requested().disjoint(held[j].requested())
                }
            &&& forall|i: int|
                0 <= i < held.len() ==> (#[trigger] held[i]).requested().within(
                    base,
                    base + size,
                )
        }),
{
    lemma_fresh_consistent(base, size);
    lemma_run_consistent(fresh(base, size), base, base + size, steps);
    let heap = run(fresh(base, size), steps);
    assert forall|i: int, j: int|
        #![trigger heap.held[i], heap.held[j]]
        0 <= i < heap.held.len() && 0 <= j < heap.held.len() && i != j implies {
        &&& heap.held[i].extent().disjoint(heap.held[j].extent())
        &&& heap.held[i].requested().disjoint(heap.held[j].requested())
    } by {
        assert(heap.held[i].extent().disjoint(heap.held[j].extent()));
        assert(heap.held[i].extent().within(base, base + size));
        assert(heap.held[j].extent().within(base, base + size));
    }
    assert forall|i: int| 0 <= i < heap.held.len() implies (#[trigger] heap.held[i]).requested().within(
        base,
        base + size,
    ) by {
        assert(heap.held[i].extent().within(base, base + size));
    }
}

/// Once the bytes set aside for the held allocations leave less
/// of the arena than a request is served with, the request is turned down.
pub proof fn lemma_exhaustion(base: int, arena_size: int, steps: Seq<Step>, size: int, alignment: int)
    requires
        arena_size >= 0,
        all_permitted(fresh(base, arena_size), steps),
        size >= 0,
        is_pow2(alignment),
        held_bytes(run(fresh(base, arena_size), steps).held) + request_size(size, alignment)
            > arena_size,
    ensures
        served(run(fresh(base, arena_size), steps).free, size, alignment).is_none(),
        next(run(fresh(base, arena_size), steps), Step::Allocate { size, alignment }) == run(
            fresh(base, arena_size),
            steps,
        ),
{
    lemma_fresh_consistent(base, arena_size);
    lemma_run_consistent(fresh(base, arena_size), base, base + arena_size, steps);
    let heap = run(fresh(base, arena_size), steps);
    let adjusted_size = request_size(size, alignment);
    let adjusted_align = request_align(alignment);
    lemma_request(size, alignment);
    lemma_first_fit(heap.free, adjusted_size, adjusted_align);
    assert forall|k: int| 0 <= k < heap.free.len() implies (#[trigger] heap.free[k]).size >= 0 by {
        assert(heap.free[k].can_host_header());
    }
    lemma_free_bytes_bound(heap.free);
    if let Some(i) = first_fit(heap.free, adjusted_size, adjusted_align) {
        lemma_align_up(heap.free[i].start, adjusted_align);
        assert(heap.free[i].size <= free_bytes(heap.free));
        assert(false);
    }
}

/// On a fresh arena that can host a header, a request
/// is served exactly if its adjusted size fits behind the first suitably
/// aligned address of the arena; the allocation then lies in the arena and at
/// a multiple of the alignment asked for. A request for no more than the
/// alignment of a header whose size leaves room for a header is always served.
pub proof fn lemma_fresh_arena_serves(base: int, arena_size: int, size: int, alignment: int)
    requires
        arena_size >= BLOCK_SIZE,
        is_aligned(base, BLOCK_ALIGN as int),
        size >= 0,
        is_pow2(alignment),
    ensures
        ({
            let answer = served(fresh(base, arena_size).free, size, alignment);
            let first_aligned = align_up(base, request_align(alignment));
            &&& answer.is_some() <==> first_aligned + request_size(size, alignment) <= base
                + arena_size
            &&& answer matches Some(addr) ==> {
                &&& addr == first_aligned
                &&& base <= addr
                &&& addr + size <= base + arena_size
                &&& is_aligned(addr, alignment)
            }
            &&& alignment <= BLOCK_ALIGN && size + BLOCK_SIZE <= arena_size ==> answer == Some(
                base,
            )
        }),
{
    let whole = Region { start: base, size: arena_size };
    let list = fresh(base, arena_size).free;
    let adjusted_size = request_size(size, alignment);
    let adjusted_align = request_align(alignment);
    assert(list =~= seq![whole]);
    lemma_request(size, alignment);
    lemma_first_fit(list, adjusted_size, adjusted_align);
    lemma_align_up(base, adjusted_align);
    if fits(whole, adjusted_size, adjusted_align) {
        lemma_first_fit_is(list, adjusted_size, adjusted_align, 0);
        lemma_aligned_to_smaller(align_up(base, adjusted_align), alignment, adjusted_align);
    }
    if alignment <= BLOCK_ALIGN && size + BLOCK_SIZE <= arena_size {
        lemma_align_up(
            if size >= BLOCK_SIZE {
                size
            } else {
                BLOCK_SIZE as int
            },
            adjusted_align,
        );
    }
}

/// A request served from the only free region, where that region
/// begins at a multiple of the request's alignment and is larger than the
/// adjusted request by at least a header, leaves as the only free region what
/// lies behind the allocation: its size is that of the region less the
/// adjusted size of the request. A further request that fits there is served
/// from it.
pub proof fn lemma_split_of_sole_region(
    region: Region,
    low: int,
    high: int,
    size: int,
    alignment: int,
    further_size: int,
    further_alignment: int,
)
    requires
        well_formed(seq![region], low, high),
        size >= 0,
        is_pow2(alignment),
        is_aligned(region.start, request_align(alignment)),
        request_size(size, alignment) + BLOCK_SIZE <= region.size,
        further_size >= 0,
        is_pow2(further_alignment),
    ensures
        ({
            let rest = Region {
                start: region.start + request_size(size, alignment),
                size: region.size - request_size(size, alignment),
            };
            &&& served(seq![region], size, alignment) == Some(region.start)
            &&& after_request(seq![region], size, alignment) == seq![rest]
            &&& fits(
                rest,
                request_size(further_size, further_alignment),
                request_align(further_alignment),
            ) ==> served(
                after_request(seq![region], size, alignment),
                further_size,
                further_alignment,
            ) == Some(align_up(rest.start, request_align(further_alignment)))
        }),
{
    let list = seq![region];
    let adjusted_size = request_size(size, alignment);
    let adjusted_align = request_align(alignment);
    let rest = Region { start: region.start + adjusted_size, size: region.size - adjusted_size };
    lemma_request(size, alignment);
    assert(list[0] == region);
    assert(region.can_host_header());
    lemma_first_fit_is(list, adjusted_size, adjusted_align, 0);
    assert(tail_of(region, adjusted_size, adjusted_align) == rest);
    assert(rest.can_host_header());
    assert(list.remove(0) =~= Seq::<Region>::empty());
    assert(after_alloc(list, adjusted_size, adjusted_align) =~= seq![rest]);
    let further = request_size(further_size, further_alignment);
    let further_at = request_align(further_alignment);
    if fits(rest, further, further_at) {
        assert(seq![rest][0] == rest);
        lemma_first_fit_is(seq![rest], further, further_at, 0);
    }
}

/// Once two regions of which the first ends where the second
/// begins have both been handed back, in either order, one free region spans
/// them both, no free region ends where another one begins, and a request
/// that fits into the two taken together is served.
pub proof fn lemma_adjoining_regions_merge(
    list: Seq<Region>,
    low: int,
    high: int,
    first: Region,
    second: Region,
    size: int,
    alignment: int,
)
    requires
        well_formed(list, low, high),
        unused(list, low, high, first),
        unused(list, low, high, second),
        first.can_host_header(),
        second.can_host_header(),
        first.end() == second.start,
        size >= 0,
        is_pow2(alignment),
    ensures
        ({
            let one_way = after_dealloc(after_dealloc(list, first), second);
            let other_way = after_dealloc(after_dealloc(list, second), first);
            &&& spans(one_way, first.start, second.end())
            &&& spans(other_way, first.start, second.end())
            &&& !has_adjoining(one_way)
            &&& !has_adjoining(other_way)
            &&& align_up(first.start, request_align(alignment)) + request_size(size, alignment)
                <= second.end() ==> served(one_way, size, alignment).is_some() && served(
                other_way,
                size,
                alignment,
            ).is_some()
        }),
{
    lemma_request(size, alignment);
    lemma_merged_after(list, low, high, first, second, first.start, second.end());
    lemma_merged_after(list, low, high, second, first, first.start, second.end());
    lemma_spanning_region_serves(
        after_dealloc(after_dealloc(list, first), second),
        first.start,
        second.end(),
        request_size(size, alignment),
        request_align(alignment),
    );
    lemma_spanning_region_serves(
        after_dealloc(after_dealloc(list, second), first),
        first.start,
        second.end(),
        request_size(size, alignment),
        request_align(alignment),
    );
}

/// What has been handed back can be had again: once an allocation has been
/// served and handed back, the same request is served.
pub proof fn lemma_served_again(list: Seq<Region>, low: int, high: int, size: int, alignment: int)
    requires
        well_formed(list, low, high),
        size >= 0,
        is_pow2(alignment),
        served(list, size, alignment).is_some(),
    ensures
        served(
            after_release(
                after_request(list, size, alignment),
                served(list, size, alignment).unwrap(),
                size,
                alignment,
            ),
            size,
            alignment,
        ).is_some(),
{
    let adjusted_size = request_size(size, alignment);
    let adjusted_align = request_align(alignment);
    let addr = alloc_addr(list, adjusted_size, adjusted_align).unwrap();
    let taken = Region { start: addr, size: adjusted_size };
    let after = after_alloc(list, adjusted_size, adjusted_align);
    lemma_request(size, alignment);
    lemma_eight_is_pow2();
    lemma_after_alloc(list, low, high, adjusted_size, adjusted_align);
    lemma_aligned_to_smaller(addr, BLOCK_ALIGN as int, adjusted_align);
    assert forall|k: int| 0 <= k < after.len() implies (#[trigger] after[k]).disjoint(taken) by {
        let other = after[k];
        assert(other.can_host_header());
        if !other.disjoint(taken) {
            let shared = if other.start >= taken.start {
                other.start
            } else {
                taken.start
            };
            assert(other.contains(shared) && taken.contains(shared));
            assert(covered(after, shared));
            assert(covered(list, shared));
        }
    }
    lemma_after_dealloc(after, low, high, taken);
    let again = after_dealloc(after, taken);
    assert forall|a: int| addr <= a < addr + adjusted_size implies #[trigger] covered(again, a) by {
        assert(taken.contains(a));
    }
    lemma_run_reaches(again, low, high, addr, addr + adjusted_size);
    lemma_spanning_region_serves(again, addr, addr + adjusted_size, adjusted_size, adjusted_align);
}

/// Whether one region of the list contains all of `[from, to)`.
pub open spec fn spans(list: Seq<Region>, from: int, to: int) -> bool {
    exists|k: int| 0 <= k < list.len() && (#[trigger] list[k]).start <= from && to <= list[k].end()
}

/// After two regions that touch no free region and not each other have been
/// handed back, and together make up `[from, to)`, one free region spans
/// `[from, to)`.
proof fn lemma_merged_after(
    list: Seq<Region>,
    low: int,
    high: int,
    one: Region,
    other: Region,
    from: int,
    to: int,
)
    requires
        well_formed(list, low, high),
        unused(list, low, high, one),
        unused(list, low, high, other),
        one.can_host_header(),
        other.can_host_header(),
        one.disjoint(other),
        from < to,
        forall|addr: int| from <= addr < to ==> one.contains(addr) || other.contains(addr),
    ensures
        spans(after_dealloc(after_dealloc(list, one), other), from, to),
        !has_adjoining(after_dealloc(after_dealloc(list, one), other)),
        well_formed(after_dealloc(after_dealloc(list, one), other), low, high),
{
    let middle = after_dealloc(list, one);
    let after = after_dealloc(middle, other);
    lemma_after_dealloc(list, low, high, one);
    assert forall|k: int| 0 <= k < middle.len() implies (#[trigger] middle[k]).disjoint(other) by {
        let region = middle[k];
        assert(region.can_host_header());
        if !region.disjoint(other) {
            let shared = if region.start >= other.start {
                region.start
            } else {
                other.start
            };
            assert(region.contains(shared) && other.contains(shared));
            assert(covered(middle, shared));
            if covered(list, shared) {
                let m = choose|m: int| 0 <= m < list.len() && (#[trigger] list[m]).contains(shared);
                assert(list[m].disjoint(other));
            }
        }
    }
    lemma_after_dealloc(middle, low, high, other);
    lemma_run_reaches(after, low, high, from, to);
}

/// In a free list in which no region ends where another one begins, a range
/// of covered addresses lies in one region.
proof fn lemma_run_reaches(list: Seq<Region>, low: int, high: int, from: int, to: int)
    requires
        well_formed(list, low, high),
        !has_adjoining(list),
        from < to,
        forall|addr: int| from <= addr < to ==> #[trigger] covered(list, addr),
    ensures
        spans(list, from, to),
{
    assert(covered(list, from));
    let k = choose|k: int| 0 <= k < list.len() && (#[trigger] list[k]).contains(from);
    if list[k].end() < to {
        let edge = list[k].end();
        assert(covered(list, edge));
        let m = choose|m: int| 0 <= m < list.len() && (#[trigger] list[m]).contains(edge);
        assert(list[m].disjoint(list[k]));
        assert(list[k].end() == list[m].start);
        assert(false);
    }
}

/// A free list with a region that contains `[from, to)` serves every request
/// that fits into `[from, to)`.
proof fn lemma_spanning_region_serves(list: Seq<Region>, from: int, to: int, size: int, align: int)
    requires
        spans(list, from, to),
        align > 0,
    ensures
        align_up(from, align) + size <= to ==> alloc_addr(list, size, align).is_some(),
{
    let k = choose|k: int|
        0 <= k < list.len() && (#[trigger] list[k]).start <= from && to <= list[k].end();
    lemma_align_up(list[k].start, align);
    lemma_align_up(from, align);
    lemma_first_fit(list, size, align);
    if align_up(from, align) + size <= to {
        assert(fits(list[k], size, align));
    }
}

} // verus!
