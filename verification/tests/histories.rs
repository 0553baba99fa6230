use free_list_allocator::FreeListAllocator;

const BASE: usize = 0x10000;

fn fresh(base: usize, size: usize) -> FreeListAllocator {
    let mut allocator = FreeListAllocator::new();
    allocator.init(base, size);
    allocator
}

fn regions(allocator: &FreeListAllocator) -> Vec<(usize, usize)> {
    allocator.free_blocks().iter().map(|block| (block.start, block.size)).collect()
}

fn adjusted(size: usize, alignment: usize) -> usize {
    FreeListAllocator::adjust_layout(size, alignment).unwrap().0
}

#[test]
fn single_block_round_trip() {
    for (size, alignment) in [(1, 1), (16, 8), (100, 4), (1000, 8), (1008, 8), (64, 64), (512, 512)] {
        let mut allocator = fresh(BASE, 1024);
        let addr = allocator.allocate(size, alignment);
        assert!(addr.is_some());
        let addr = addr.unwrap();
        assert!(BASE <= addr && addr + size <= BASE + 1024);
        assert_eq!(addr % alignment, 0);
        assert_eq!(addr, BASE);
    }
}

#[test]
fn single_block_round_trip_needs_room_behind_the_alignment() {
    // The arena begins 8 bytes behind a multiple of 32: the first multiple of
    // 32 leaves 8 bytes, which is less than the 32 that the request takes.
    let mut allocator = fresh(BASE + 8, 32);
    assert_eq!(allocator.allocate(16, 32), None);
    assert_eq!(allocator.allocate(16, 8), Some(BASE + 8));
}

#[test]
fn exhaustion() {
    let mut allocator = fresh(BASE, 1024);
    let mut served = 0;
    while served < 1024 {
        let addr = allocator.allocate(64, 8);
        assert_eq!(addr, Some(BASE + served));
        served += 64;
    }
    assert_eq!(allocator.allocate(64, 8), None);
    assert_eq!(allocator.allocate(1, 1), None);
    assert!(regions(&allocator).is_empty());
}

#[test]
fn exhaustion_counts_adjusted_sizes() {
    let mut allocator = fresh(BASE, 64);
    // Each request for one byte takes a whole header.
    for i in 0..4 {
        assert_eq!(allocator.allocate(1, 1), Some(BASE + 16 * i));
    }
    assert_eq!(allocator.allocate(1, 1), None);
}

#[test]
fn free_then_reallocate_reuses_the_region() {
    let mut allocator = fresh(BASE, 1024);
    let ptr1 = allocator.allocate(16, 8).unwrap();
    allocator.deallocate(ptr1, 16, 8);
    let ptr2 = allocator.allocate(16, 8);
    assert!(ptr2.is_some());
    assert_eq!(ptr2.unwrap(), ptr1);
}

#[test]
fn split_leaves_the_remainder_free() {
    let mut allocator = fresh(BASE, 1024);
    let request_size = adjusted(40, 8);
    assert_eq!(request_size, 40);
    assert_eq!(allocator.allocate(40, 8), Some(BASE));
    assert_eq!(regions(&allocator), vec![(BASE + 40, 1024 - request_size)]);
    // The remainder serves further requests.
    assert_eq!(allocator.allocate(984, 8), Some(BASE + 40));
    assert!(regions(&allocator).is_empty());
}

#[test]
fn split_with_a_remainder_of_exactly_one_header() {
    let mut allocator = fresh(BASE, 64);
    assert_eq!(allocator.allocate(48, 8), Some(BASE));
    assert_eq!(regions(&allocator), vec![(BASE + 48, 16)]);
    assert_eq!(allocator.allocate(16, 8), Some(BASE + 48));
}

#[test]
fn coalescing_of_two_adjacent_regions() {
    for first_freed in 0..2 {
        let mut allocator = fresh(BASE, 64);
        let a = allocator.allocate(32, 8).unwrap();
        let b = allocator.allocate(32, 8).unwrap();
        assert_eq!((a, b), (BASE, BASE + 32));
        assert_eq!(allocator.allocate(16, 8), None);
        if first_freed == 0 {
            allocator.deallocate(a, 32, 8);
            allocator.deallocate(b, 32, 8);
        } else {
            allocator.deallocate(b, 32, 8);
            allocator.deallocate(a, 32, 8);
        }
        assert_eq!(regions(&allocator), vec![(BASE, 64)]);
        // Larger than either region, but not than both together.
        assert_eq!(allocator.allocate(48, 8), Some(BASE));
    }
}

#[test]
fn coalescing_needs_adjacency() {
    let mut allocator = fresh(BASE, 96);
    let a = allocator.allocate(32, 8).unwrap();
    let _b = allocator.allocate(32, 8).unwrap();
    let c = allocator.allocate(32, 8).unwrap();
    allocator.deallocate(a, 32, 8);
    allocator.deallocate(c, 32, 8);
    assert_eq!(regions(&allocator), vec![(BASE + 64, 32), (BASE, 32)]);
    assert_eq!(allocator.allocate(48, 8), None);
}

#[test]
fn alignment_of_served_addresses() {
    let mut allocator = fresh(BASE + 8, 1 << 16);
    let mut alignment = 1;
    while alignment <= 4096 {
        for size in [1, 7, 16, 33, 200] {
            let addr = allocator.allocate(size, alignment).unwrap();
            assert_eq!(addr % alignment, 0);
        }
        alignment *= 2;
    }
}

fn overlap(a: (usize, usize), b: (usize, usize)) -> bool {
    a.0 < b.0 + b.1 && b.0 < a.0 + a.1
}

#[test]
fn no_two_outstanding_allocations_overlap() {
    let arena_size = 1 << 14;
    let mut allocator = fresh(BASE, arena_size);
    let mut held: Vec<(usize, usize, usize)> = Vec::new();
    let mut state: u64 = 0x2545_f491_4f6c_dd1d;
    let mut served = 0;
    for _ in 0..4000 {
        state = state.wrapping_mul(6364136223846793005).wrapping_add(1442695040888963407);
        let choice = (state >> 33) as usize;
        if choice % 3 != 0 || held.is_empty() {
            let size = (choice >> 2) % 300;
            let alignment = 1usize << ((choice >> 12) % 8);
            if let Some(addr) = allocator.allocate(size, alignment) {
                assert_eq!(addr % alignment, 0);
                assert!(BASE <= addr && addr + size <= BASE + arena_size);
                let extent = adjusted(size, alignment);
                for &(other, other_size, other_alignment) in &held {
                    let other_extent = adjusted(other_size, other_alignment);
                    assert!(!overlap((addr, extent), (other, other_extent)));
                }
                held.push((addr, size, alignment));
                served += 1;
            }
        } else {
            let (addr, size, alignment) = held.swap_remove((choice >> 2) % held.len());
            allocator.deallocate(addr, size, alignment);
        }
        let free = regions(&allocator);
        for (i, &region) in free.iter().enumerate() {
            for &(addr, size, alignment) in &held {
                assert!(!overlap(region, (addr, adjusted(size, alignment))));
            }
            for &other in &free[i + 1..] {
                assert!(!overlap(region, other));
                assert!(region.0 + region.1 != other.0 && other.0 + other.1 != region.0);
            }
        }
    }
    assert!(served > 1000);
    while let Some((addr, size, alignment)) = held.pop() {
        allocator.deallocate(addr, size, alignment);
    }
    let free_total: usize = regions(&allocator).iter().map(|region| region.1).sum();
    assert!(free_total <= arena_size);
}
