//! Merging in the model of the free list: what adjoining free regions are
//! merged into, and what merging keeps.

use crate::free_list::{
    after_insert, covered, extent, free_bytes, lemma_free_bytes_insert, lemma_free_bytes_remove,
    lemma_free_bytes_update, unused, well_formed, Region,
};
use vstd::prelude::*;

verus! {

/// Whether `gap` is the first address at or behind `from` that no region covers.
pub open spec fn is_first_gap(list: Seq<Region>, from: int, gap: int) -> bool {
    &&& from <= gap
    &&& !covered(list, gap)
    &&& forall|addr: int| from <= addr < gap ==> #[trigger] covered(list, addr)
}

/// The first address at or behind `from` that no region covers.
pub open spec fn first_gap(list: Seq<Region>, from: int) -> int {
    choose|gap: int| is_first_gap(list, from, gap)
}

/// Whether no free region ends where `region` begins, so that a run of adjoining
/// free regions begins with it.
pub open spec fn begins_run(list: Seq<Region>, region: Region) -> bool {
    !covered(list, region.start - 1)
}

/// The run of adjoining free regions that begins where `region` does: it
/// reaches to the first address that no region covers.
pub open spec fn run_of(list: Seq<Region>, region: Region) -> Region {
    Region { start: region.start, size: first_gap(list, region.start) - region.start }
}

/// The list after adjoining free regions have been merged: each region that
/// begins a run stays at its place and grows into the whole run; the regions
/// that another one runs into leave the list.
pub open spec fn coalesced(list: Seq<Region>) -> Seq<Region> {
    list.filter(|region: Region| begins_run(list, region)).map_values(
        |region: Region| run_of(list, region),
    )
}

/// Whether some region of the list ends where another one begins.
pub open spec fn has_adjoining(list: Seq<Region>) -> bool {
    exists|i: int, j: int|
        0 <= i < list.len() && 0 <= j < list.len() && (#[trigger] list[i]).end() == (
        #[trigger] list[j]).start
}

/// The list after its `i`-th region has taken in the `j`-th, which begins where
/// it ends.
pub open spec fn absorbed(list: Seq<Region>, i: int, j: int) -> Seq<Region> {
    list.update(i, Region { start: list[i].start, size: list[i].size + list[j].size }).remove(j)
}

/// The list after `region` has been handed back and adjoining free regions have
/// been merged.
pub open spec fn after_dealloc(list: Seq<Region>, region: Region) -> Seq<Region> {
    coalesced(after_insert(list, region))
}

/// The list after the allocation of `size` bytes at `alignment` that was
/// served with `addr` has been handed back.
pub open spec fn after_release(list: Seq<Region>, addr: int, size: int, alignment: int) -> Seq<
    Region,
> {
    after_dealloc(list, extent(addr, size, alignment))
}

/// Behind every address there is a first one that no region covers, and only one.
pub proof fn lemma_first_gap(list: Seq<Region>, from: int, high: int)
    requires
        forall|i: int| 0 <= i < list.len() ==> (#[trigger] list[i]).end() <= high,
    ensures
        is_first_gap(list, from, first_gap(list, from)),
        first_gap(list, from) <= high || first_gap(list, from) == from,
        forall|gap: int| is_first_gap(list, from, gap) ==> gap == first_gap(list, from),
    decreases high - from,
{
    if covered(list, from) {
        lemma_first_gap(list, from + 1, high);
        let gap = first_gap(list, from + 1);
        assert(is_first_gap(list, from, gap));
    } else {
        assert(is_first_gap(list, from, from));
    }
    let found = first_gap(list, from);
    assert forall|gap: int| is_first_gap(list, from, gap) implies gap == found by {
        if gap < found {
            assert(covered(list, gap));
        }
        if found < gap {
            assert(covered(list, found));
        }
    }
}

/// Filtering and mapping two sequences gives the same result where, place by
/// place, the filters agree and, on what they keep, the maps agree.
proof fn lemma_filter_map_agree(
    left: Seq<Region>,
    left_keep: spec_fn(Region) -> bool,
    left_map: spec_fn(Region) -> Region,
    right: Seq<Region>,
    right_keep: spec_fn(Region) -> bool,
    right_map: spec_fn(Region) -> Region,
)
    requires
        left.len() == right.len(),
        forall|k: int|
            0 <= k < left.len() ==> left_keep(#[trigger] left[k]) == right_keep(right[k]),
        forall|k: int|
            0 <= k < left.len() && left_keep(#[trigger] left[k]) ==> left_map(left[k])
                == right_map(right[k]),
    ensures
        left.filter(left_keep).map_values(left_map) == right.filter(right_keep).map_values(
            right_map,
        ),
    decreases left.len(),
{
    reveal(Seq::filter);
    if left.len() > 0 {
        let last = left.len() - 1;
        assert(left_keep(left[last]) == right_keep(right[last]));
        assert forall|k: int| 0 <= k < last implies left_keep(#[trigger] left.drop_last()[k])
            == right_keep(right.drop_last()[k]) by {
            assert(left.drop_last()[k] == left[k]);
        }
        assert forall|k: int|
            0 <= k < last && left_keep(#[trigger] left.drop_last()[k]) implies left_map(
            left.drop_last()[k],
        ) == right_map(right.drop_last()[k]) by {
            assert(left.drop_last()[k] == left[k]);
        }
        lemma_filter_map_agree(
            left.drop_last(),
            left_keep,
            left_map,
            right.drop_last(),
            right_keep,
            right_map,
        );
        let left_front = left.drop_last().filter(left_keep);
        let right_front = right.drop_last().filter(right_keep);
        if left_keep(left[last]) {
            assert(left_front.push(left[last]).map_values(left_map) =~= left_front.map_values(
                left_map,
            ).push(left_map(left[last])));
            assert(right_front.push(right[last]).map_values(right_map)
                =~= right_front.map_values(right_map).push(right_map(right[last])));
        }
    }
}

/// Taking out an entry that the filter drops does not change what the filter keeps.
proof fn lemma_filter_remove(list: Seq<Region>, keep: spec_fn(Region) -> bool, j: int)
    requires
        0 <= j < list.len(),
        !keep(list[j]),
    ensures
        list.remove(j).filter(keep) == list.filter(keep),
    decreases list.len(),
{
    reveal(Seq::filter);
    let last = list.len() - 1;
    if j == last {
        assert(list.remove(j) =~= list.drop_last());
    } else {
        lemma_filter_remove(list.drop_last(), keep, j);
        assert(list.remove(j).drop_last() =~= list.drop_last().remove(j));
        assert(list.remove(j).last() == list.last());
    }
}

/// Where the filter keeps every entry and the map changes none, mapping what
/// the filter keeps gives the list back.
proof fn lemma_filter_map_nothing(
    list: Seq<Region>,
    keep: spec_fn(Region) -> bool,
    map: spec_fn(Region) -> Region,
)
    requires
        forall|k: int| 0 <= k < list.len() ==> keep(#[trigger] list[k]) && map(list[k]) == list[k],
    ensures
        list.filter(keep).map_values(map) == list,
    decreases list.len(),
{
    reveal(Seq::filter);
    if list.len() > 0 {
        let front = list.drop_last();
        assert forall|k: int| 0 <= k < front.len() implies keep(#[trigger] front[k]) && map(
            front[k],
        ) == front[k] by {
            assert(front[k] == list[k]);
        }
        lemma_filter_map_nothing(front, keep, map);
        assert(keep(list[list.len() - 1]));
        assert(front.filter(keep).push(list.last()).map_values(map) =~= front.filter(
            keep,
        ).map_values(map).push(map(list.last())));
        assert(front.push(list.last()) =~= list);
    }
}

/// Two lists that cover the same addresses have the same first gap behind
/// every address.
proof fn lemma_same_cover_same_gap(left: Seq<Region>, right: Seq<Region>, from: int, high: int)
    requires
        forall|i: int| 0 <= i < left.len() ==> (#[trigger] left[i]).end() <= high,
        forall|i: int| 0 <= i < right.len() ==> (#[trigger] right[i]).end() <= high,
        forall|addr: int| covered(left, addr) == covered(right, addr),
    ensures
        first_gap(left, from) == first_gap(right, from),
{
    lemma_first_gap(left, from, high);
    lemma_first_gap(right, from, high);
    let gap = first_gap(left, from);
    assert forall|addr: int| from <= addr < gap implies #[trigger] covered(right, addr) by {
        assert(covered(left, addr));
    }
    assert(is_first_gap(right, from, gap));
}

/// Merging two adjoining regions keeps the list a free list of its arena,
/// keeps the addresses that it covers, and does not change what merging all
/// adjoining regions leads to.
pub proof fn lemma_absorbed(list: Seq<Region>, low: int, high: int, i: int, j: int)
    requires
        well_formed(list, low, high),
        0 <= i < list.len(),
        0 <= j < list.len(),
        list[i].end() == list[j].start,
    ensures
        i != j,
        absorbed(list, i, j).len() == list.len() - 1,
        well_formed(absorbed(list, i, j), low, high),
        forall|addr: int| covered(absorbed(list, i, j), addr) == covered(list, addr),
        coalesced(absorbed(list, i, j)) == coalesced(list),
        free_bytes(absorbed(list, i, j)) == free_bytes(list),
{
    assert(list[i].can_host_header() && list[j].can_host_header());
    let grown = Region { start: list[i].start, size: list[i].size + list[j].size };
    let updated = list.update(i, grown);
    let merged = absorbed(list, i, j);
    lemma_free_bytes_update(list, i, grown);
    lemma_free_bytes_remove(updated, j);
    let at = if i < j {
        i
    } else {
        i - 1
    };
    assert(merged[at] == grown);
    assert forall|k: int| 0 <= k < merged.len() implies (#[trigger] merged[k]).can_host_header()
        && merged[k].within(low, high) by {
        let from = if k < j {
            k
        } else {
            k + 1
        };
        assert(merged[k] == updated[from]);
        assert(list[from].can_host_header() && list[from].within(low, high));
        assert(list[j].within(low, high));
    }
    assert forall|k: int, m: int|
        0 <= k < merged.len() && 0 <= m < merged.len() && k != m implies (#[trigger] merged[k]).disjoint(
        #[trigger] merged[m],
    ) by {
        let from_k = if k < j {
            k
        } else {
            k + 1
        };
        let from_m = if m < j {
            m
        } else {
            m + 1
        };
        assert(merged[k] == updated[from_k] && merged[m] == updated[from_m]);
        assert(list[from_k].disjoint(list[from_m]));
        assert(list[from_k].disjoint(list[i]) || from_k == i);
        assert(list[from_k].disjoint(list[j]));
        assert(list[from_m].disjoint(list[i]) || from_m == i);
        assert(list[from_m].disjoint(list[j]));
        assert(list[from_k].can_host_header() && list[from_m].can_host_header());
    }
    assert forall|addr: int| covered(merged, addr) == covered(list, addr) by {
        if covered(merged, addr) {
            let k = choose|k: int| 0 <= k < merged.len() && (#[trigger] merged[k]).contains(addr);
            let from = if k < j {
                k
            } else {
                k + 1
            };
            assert(merged[k] == updated[from]);
            if from == i {
                assert(list[i].contains(addr) || list[j].contains(addr));
            } else {
                assert(list[from].contains(addr));
            }
            assert(covered(list, addr));
        }
        if covered(list, addr) {
            let k = choose|k: int| 0 <= k < list.len() && (#[trigger] list[k]).contains(addr);
            if k == i || k == j {
                assert(merged[at].contains(addr));
            } else {
                let to = if k < j {
                    k
                } else {
                    k - 1
                };
                assert(merged[to] == list[k]);
                assert(merged[to].contains(addr));
            }
            assert(covered(merged, addr));
        }
    }
    let keep = |region: Region| begins_run(list, region);
    let grow = |region: Region| run_of(list, region);
    let merged_keep = |region: Region| begins_run(merged, region);
    let merged_grow = |region: Region| run_of(merged, region);
    assert forall|k: int| 0 <= k < merged.len() implies merged_grow(#[trigger] merged[k]) == grow(
        merged[k],
    ) by {
        assert forall|m: int| 0 <= m < merged.len() implies (#[trigger] merged[m]).end()
            <= high by {
            assert(merged[m].within(low, high));
        }
        assert forall|m: int| 0 <= m < list.len() implies (#[trigger] list[m]).end() <= high by {
            assert(list[m].within(low, high));
        }
        lemma_same_cover_same_gap(merged, list, merged[k].start, high);
    }
    lemma_filter_map_agree(merged, merged_keep, merged_grow, merged, keep, grow);
    assert(!keep(updated[j])) by {
        assert(updated[j] == list[j]);
        assert(list[i].contains(list[j].start - 1));
    }
    lemma_filter_remove(updated, keep, j);
    lemma_filter_map_agree(updated, keep, grow, list, keep, grow);
}

/// One step of merging, seen from the list without the region that is taken
/// in: the bytes of that region touch nothing that is left, letting the region
/// before them grow by them gives the merged list, and the regions in front of
/// the growing one, if nothing began where they end, still have nothing begin
/// where they end.
pub proof fn lemma_absorbed_in_steps(list: Seq<Region>, low: int, high: int, k: int, j: int)
    requires
        well_formed(list, low, high),
        0 <= k < list.len(),
        0 <= j < list.len(),
        list[k].end() == list[j].start,
        forall|m: int, n: int|
            0 <= m < k && 0 <= n < list.len() ==> (#[trigger] list[m]).end() != (
            #[trigger] list[n]).start,
    ensures
        k != j,
        list.remove(j)[if j < k {
            k - 1
        } else {
            k
        }] == list[k],
        unused(list.remove(j), low, high, Region { start: list[k].end(), size: list[j].size }),
        absorbed(list, k, j) == list.remove(j).update(
            if j < k {
                k - 1
            } else {
                k
            },
            Region { start: list[k].start, size: list[k].size + list[j].size },
        ),
        forall|m: int, n: int|
            0 <= m < (if j < k {
                k - 1
            } else {
                k
            }) && 0 <= n < absorbed(list, k, j).len() ==> (#[trigger] absorbed(list, k, j)[m]).end()
                != (#[trigger] absorbed(list, k, j)[n]).start,
{
    assert(list[k].can_host_header() && list[j].can_host_header());
    assert(list[j].within(low, high));
    let rest = list.remove(j);
    let merged = absorbed(list, k, j);
    let at = if j < k {
        k - 1
    } else {
        k
    };
    let grown = Region { start: list[k].start, size: list[k].size + list[j].size };
    assert forall|m: int| 0 <= m < rest.len() implies (#[trigger] rest[m]).disjoint(list[j]) by {
        let from = if m < j {
            m
        } else {
            m + 1
        };
        assert(rest[m] == list[from]);
        assert(list[from].disjoint(list[j]));
    }
    assert(merged =~= rest.update(at, grown));
    assert forall|m: int, n: int| 0 <= m < at && 0 <= n < merged.len() implies (
    #[trigger] merged[m]).end() != (#[trigger] merged[n]).start by {
        let from_m = if m < j {
            m
        } else {
            m + 1
        };
        let from_n = if n < j {
            n
        } else {
            n + 1
        };
        assert(merged[m] == list[from_m]);
        assert(merged[n].start == list[from_n].start);
        assert(list[from_m].end() != list[from_n].start);
    }
}

/// A free list in which no region ends where another one begins is what
/// merging leaves of it.
pub proof fn lemma_settled(list: Seq<Region>, low: int, high: int)
    requires
        well_formed(list, low, high),
        !has_adjoining(list),
    ensures
        coalesced(list) == list,
{
    let keep = |region: Region| begins_run(list, region);
    let grow = |region: Region| run_of(list, region);
    assert forall|k: int| 0 <= k < list.len() implies keep(#[trigger] list[k]) && grow(list[k])
        == list[k] by {
        assert(list[k].can_host_header());
        if covered(list, list[k].start - 1) {
            let m = choose|m: int|
                0 <= m < list.len() && (#[trigger] list[m]).contains(list[k].start - 1);
            assert(list[m].disjoint(list[k]));
            assert(list[m].end() == list[k].start);
        }
        if covered(list, list[k].end()) {
            let m = choose|m: int|
                0 <= m < list.len() && (#[trigger] list[m]).contains(list[k].end());
            assert(list[m].disjoint(list[k]));
            assert(list[k].end() == list[m].start);
        }
        assert forall|addr: int| list[k].start <= addr < list[k].end() implies #[trigger] covered(
            list,
            addr,
        ) by {
            assert(list[k].contains(addr));
        }
        assert(is_first_gap(list, list[k].start, list[k].end()));
        assert forall|m: int| 0 <= m < list.len() implies (#[trigger] list[m]).end() <= high by {
            assert(list[m].within(low, high));
        }
        lemma_first_gap(list, list[k].start, high);
    }
    lemma_filter_map_nothing(list, keep, grow);
}

/// Merging leaves a free list of the same arena that covers the same
/// addresses, in which no region ends where another one begins.
pub proof fn lemma_coalesced(list: Seq<Region>, low: int, high: int)
    requires
        well_formed(list, low, high),
    ensures
        well_formed(coalesced(list), low, high),
        !has_adjoining(coalesced(list)),
        forall|addr: int| covered(coalesced(list), addr) == covered(list, addr),
        coalesced(list).len() <= list.len(),
        coalesced(coalesced(list)) == coalesced(list),
        free_bytes(coalesced(list)) == free_bytes(list),
    decreases list.len(),
{
    if has_adjoining(list) {
        let (i, j) = choose|i: int, j: int|
            0 <= i < list.len() && 0 <= j < list.len() && (#[trigger] list[i]).end() == (
            #[trigger] list[j]).start;
        lemma_absorbed(list, low, high, i, j);
        lemma_coalesced(absorbed(list, i, j), low, high);
    } else {
        lemma_settled(list, low, high);
    }
}

/// What handing a region back does to a free list: the list stays a free
/// list of its arena, in which no region ends where another one begins; it
/// covers what it covered before and, if the region can host a header, the
/// region; and the free bytes rise by the size of the region.
pub proof fn lemma_after_dealloc(list: Seq<Region>, low: int, high: int, region: Region)
    requires
        well_formed(list, low, high),
        unused(list, low, high, region),
    ensures
        well_formed(after_dealloc(list, region), low, high),
        !has_adjoining(after_dealloc(list, region)),
        forall|addr: int|
            #[trigger] covered(after_dealloc(list, region), addr) == (covered(list, addr) || (
            region.can_host_header() && region.contains(addr))),
        free_bytes(after_dealloc(list, region)) == free_bytes(list) + if region.can_host_header() {
            region.size
        } else {
            0
        },
{
    let inserted = after_insert(list, region);
    if region.can_host_header() {
        lemma_free_bytes_insert(list, region);
        assert forall|k: int| 0 <= k < inserted.len() implies (#[trigger] inserted[k]).can_host_header()
            && inserted[k].within(low, high) by {
            if k > 0 {
                assert(inserted[k] == list[k - 1]);
            }
        }
        assert forall|k: int, m: int|
            0 <= k < inserted.len() && 0 <= m < inserted.len() && k != m implies (
        #[trigger] inserted[k]).disjoint(#[trigger] inserted[m]) by {
            if k > 0 {
                assert(inserted[k] == list[k - 1]);
                assert(list[k - 1].disjoint(region));
            }
            if m > 0 {
                assert(inserted[m] == list[m - 1]);
                assert(list[m - 1].disjoint(region));
            }
            if k > 0 && m > 0 {
                assert(list[k - 1].disjoint(list[m - 1]));
            }
        }
        assert forall|addr: int| covered(inserted, addr) == (covered(list, addr)
            || region.contains(addr)) by {
            if covered(inserted, addr) {
                let k = choose|k: int|
                    0 <= k < inserted.len() && (#[trigger] inserted[k]).contains(addr);
                if k > 0 {
                    assert(list[k - 1].contains(addr));
                }
            }
            if covered(list, addr) {
                let k = choose|k: int| 0 <= k < list.len() && (#[trigger] list[k]).contains(addr);
                assert(inserted[k + 1].contains(addr));
            }
            if region.contains(addr) {
                assert(inserted[0].contains(addr));
            }
        }
    }
    lemma_coalesced(inserted, low, high);
}

} // verus!
