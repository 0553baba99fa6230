use free_list_allocator::align::align_up_checked;
use free_list_allocator::{Arena, Block, FreeListAllocator, BLOCK_ALIGN, BLOCK_SIZE};

const BASE: usize = 4096;

fn fresh(base: usize, size: usize) -> FreeListAllocator {
    let mut allocator = FreeListAllocator::new();
    allocator.init(base, size);
    allocator
}

fn regions(allocator: &FreeListAllocator) -> Vec<(usize, usize)> {
    allocator.free_blocks().iter().map(|block| (block.start, block.size)).collect()
}

#[test]
fn header_constants() {
    assert_eq!(BLOCK_SIZE, 16);
    assert_eq!(BLOCK_ALIGN, 8);
}

#[test]
fn align_up_rounds_to_the_next_multiple() {
    assert_eq!(align_up_checked(13, 8), Some(16));
    assert_eq!(align_up_checked(16, 8), Some(16));
    assert_eq!(align_up_checked(17, 8), Some(24));
    assert_eq!(align_up_checked(0, 4), Some(0));
    assert_eq!(align_up_checked(5, 1), Some(5));
    assert_eq!(align_up_checked(4097, 4096), Some(8192));
}

#[test]
fn align_up_reports_overflow() {
    assert_eq!(align_up_checked(usize::MAX, 2), None);
    assert_eq!(align_up_checked(usize::MAX - 6, 8), None);
    assert_eq!(align_up_checked(usize::MAX - 7, 8), Some(usize::MAX - 7));
    assert_eq!(align_up_checked(usize::MAX, 1), Some(usize::MAX));
}

#[test]
fn block_addresses() {
    let block = Block { start: 4096, size: 48, next: None };
    assert_eq!(block.starting_addr(), 4096);
    assert_eq!(block.finishing_addr(), 4144);
}

#[test]
fn arena_keeps_what_is_written() {
    let mut arena = Arena::new(BASE, 64);
    assert_eq!(arena.start_address(), BASE);
    assert_eq!(arena.size(), 64);
    arena.write_header_at(BASE, 32, Some(BASE + 32));
    arena.write_header_at(BASE + 32, 32, None);
    assert_eq!(arena.read_header_at(BASE), Block { start: BASE, size: 32, next: Some(BASE + 32) });
    assert_eq!(arena.read_header_at(BASE + 32), Block { start: BASE + 32, size: 32, next: None });
}

#[test]
fn arena_header_write_leaves_neighbours_alone() {
    let mut arena = Arena::new(BASE, 48);
    arena.write_header_at(BASE, 16, Some(BASE + 16));
    arena.write_header_at(BASE + 32, 16, None);
    arena.write_header_at(BASE + 16, 0x0102_0304_0506_0708, Some(0x1112_1314_1516_1718));
    assert_eq!(arena.read_header_at(BASE), Block { start: BASE, size: 16, next: Some(BASE + 16) });
    assert_eq!(arena.read_header_at(BASE + 32), Block { start: BASE + 32, size: 16, next: None });
    assert_eq!(
        arena.read_header_at(BASE + 16),
        Block { start: BASE + 16, size: 0x0102_0304_0506_0708, next: Some(0x1112_1314_1516_1718) }
    );
}

#[test]
fn new_allocator_serves_nothing() {
    let mut allocator = FreeListAllocator::new();
    assert!(!allocator.is_initialized());
    assert_eq!(allocator.allocate(16, 8), None);
    assert!(regions(&allocator).is_empty());
}

#[test]
fn init_installs_one_region() {
    let allocator = fresh(BASE, 1024);
    assert!(allocator.is_initialized());
    assert_eq!(allocator.free_blocks(), vec![Block { start: BASE, size: 1024, next: None }]);
}

#[test]
fn arena_smaller_than_a_header_never_serves() {
    let mut allocator = fresh(BASE, 15);
    assert!(allocator.is_initialized());
    assert!(regions(&allocator).is_empty());
    assert_eq!(allocator.allocate(1, 1), None);
}

#[test]
fn misaligned_arena_never_serves() {
    let mut allocator = fresh(BASE + 4, 1024);
    assert!(regions(&allocator).is_empty());
    assert_eq!(allocator.allocate(16, 8), None);
}

#[test]
fn arena_of_exactly_one_header() {
    let mut allocator = fresh(BASE, 16);
    assert_eq!(allocator.allocate(16, 8), Some(BASE));
    assert_eq!(allocator.allocate(16, 8), None);
}

#[test]
fn adjust_layout_raises_and_rounds() {
    assert_eq!(FreeListAllocator::adjust_layout(16, 8), Some((16, 8)));
    assert_eq!(FreeListAllocator::adjust_layout(1, 1), Some((16, 8)));
    assert_eq!(FreeListAllocator::adjust_layout(0, 1), Some((16, 8)));
    assert_eq!(FreeListAllocator::adjust_layout(17, 8), Some((24, 8)));
    assert_eq!(FreeListAllocator::adjust_layout(24, 16), Some((32, 16)));
    assert_eq!(FreeListAllocator::adjust_layout(0, 32), Some((32, 32)));
    assert_eq!(FreeListAllocator::adjust_layout(1, 64), Some((64, 64)));
    assert_eq!(FreeListAllocator::adjust_layout(100, 64), Some((128, 64)));
}

#[test]
fn adjust_layout_reports_overflow() {
    assert_eq!(FreeListAllocator::adjust_layout(usize::MAX, 8), None);
    assert_eq!(FreeListAllocator::adjust_layout(usize::MAX - 7, 8), Some((usize::MAX - 7, 8)));
}

#[test]
fn fit_test_accepts_and_rejects() {
    let block = Block { start: 4104, size: 100, next: None };
    assert_eq!(FreeListAllocator::check_block_allocation(&block, 16, 64), Ok(4160));
    assert_eq!(FreeListAllocator::check_block_allocation(&block, 44, 64), Ok(4160));
    assert_eq!(FreeListAllocator::check_block_allocation(&block, 45, 64), Err(()));
    assert_eq!(FreeListAllocator::check_block_allocation(&block, 100, 8), Ok(4104));
    assert_eq!(FreeListAllocator::check_block_allocation(&block, 101, 8), Err(()));
    assert_eq!(FreeListAllocator::check_block_allocation(&block, 16, 4096), Err(()));
}

#[test]
fn fit_test_rejects_what_would_overflow() {
    let block = Block { start: usize::MAX - 31, size: 31, next: None };
    assert_eq!(FreeListAllocator::check_block_allocation(&block, 16, 64), Err(()));
    assert_eq!(FreeListAllocator::check_block_allocation(&block, usize::MAX, 8), Err(()));
    assert_eq!(FreeListAllocator::check_block_allocation(&block, 31, 8), Ok(usize::MAX - 31));
}

#[test]
fn find_block_takes_the_first_fit() {
    let mut allocator = FreeListAllocator::new();
    allocator.init(BASE, 256);
    // Three regions in list order: [BASE + 128, 64), [BASE + 64, 32), [BASE, 16).
    let taken = allocator.find_block(256, 8);
    assert_eq!(taken, Some((Block { start: BASE, size: 256, next: None }, BASE)));
    allocator.insert_free_region(BASE, 16);
    allocator.insert_free_region(BASE + 64, 32);
    allocator.insert_free_region(BASE + 128, 64);
    assert_eq!(regions(&allocator), vec![(BASE + 128, 64), (BASE + 64, 32), (BASE, 16)]);

    assert_eq!(allocator.find_block(65, 8), None);
    assert_eq!(regions(&allocator), vec![(BASE + 128, 64), (BASE + 64, 32), (BASE, 16)]);

    let found = allocator.find_block(24, 8);
    assert_eq!(
        found,
        Some((Block { start: BASE + 128, size: 64, next: Some(BASE + 64) }, BASE + 128))
    );
    assert_eq!(regions(&allocator), vec![(BASE + 64, 32), (BASE, 16)]);

    let found = allocator.find_block(16, 8);
    assert_eq!(found, Some((Block { start: BASE + 64, size: 32, next: Some(BASE) }, BASE + 64)));
    assert_eq!(allocator.free_blocks(), vec![Block { start: BASE, size: 16, next: None }]);
}

#[test]
fn find_block_unlinks_from_the_middle_and_the_end() {
    let mut allocator = fresh(BASE, 256);
    allocator.find_block(256, 8);
    allocator.insert_free_region(BASE, 16);
    allocator.insert_free_region(BASE + 64, 32);
    allocator.insert_free_region(BASE + 136, 24);

    // Only the middle region holds 32 bytes.
    let found = allocator.find_block(32, 8);
    assert_eq!(found, Some((Block { start: BASE + 64, size: 32, next: Some(BASE) }, BASE + 64)));
    assert_eq!(
        allocator.free_blocks(),
        vec![
            Block { start: BASE + 136, size: 24, next: Some(BASE) },
            Block { start: BASE, size: 16, next: None },
        ]
    );

    // With 64-byte alignment only the last region fits: BASE is a multiple of 64.
    let found = allocator.find_block(16, 64);
    assert_eq!(found, Some((Block { start: BASE, size: 16, next: None }, BASE)));
    assert_eq!(allocator.free_blocks(), vec![Block { start: BASE + 136, size: 24, next: None }]);
}

#[test]
fn insert_free_region_pushes_at_the_head() {
    let mut allocator = fresh(BASE, 256);
    allocator.find_block(16, 8);
    allocator.insert_free_region(BASE + 32, 16);
    allocator.insert_free_region(BASE, 16);
    assert_eq!(
        allocator.free_blocks(),
        vec![
            Block { start: BASE, size: 16, next: Some(BASE + 32) },
            Block { start: BASE + 32, size: 16, next: None },
        ]
    );
}

#[test]
fn insert_free_region_drops_what_cannot_host_a_header() {
    let mut allocator = fresh(BASE, 256);
    allocator.find_block(16, 8);
    allocator.insert_free_region(BASE, 15);
    assert!(regions(&allocator).is_empty());
    allocator.insert_free_region(BASE + 4, 64);
    assert!(regions(&allocator).is_empty());
    allocator.insert_free_region(BASE, 0);
    assert!(regions(&allocator).is_empty());
    allocator.insert_free_region(BASE + 8, 16);
    assert_eq!(regions(&allocator), vec![(BASE + 8, 16)]);
}

#[test]
fn allocation_splits_the_region() {
    let mut allocator = fresh(BASE, 1024);
    assert_eq!(allocator.allocate(16, 8), Some(BASE));
    assert_eq!(regions(&allocator), vec![(BASE + 16, 1008)]);
    assert_eq!(allocator.allocate(100, 8), Some(BASE + 16));
    assert_eq!(regions(&allocator), vec![(BASE + 120, 904)]);
}

#[test]
fn small_requests_get_a_whole_header() {
    let mut allocator = fresh(BASE, 64);
    assert_eq!(allocator.allocate(0, 1), Some(BASE));
    assert_eq!(allocator.allocate(1, 2), Some(BASE + 16));
    assert_eq!(allocator.allocate(3, 4), Some(BASE + 32));
    assert_eq!(regions(&allocator), vec![(BASE + 48, 16)]);
}

#[test]
fn padding_before_the_allocation_is_given_up() {
    let mut allocator = fresh(BASE + 8, 1024);
    assert_eq!(allocator.allocate(16, 64), Some(BASE + 64));
    // The region ended at BASE + 1032; the allocation took [BASE + 64, BASE + 128).
    assert_eq!(regions(&allocator), vec![(BASE + 128, 904)]);
    allocator.deallocate(BASE + 64, 16, 64);
    assert_eq!(regions(&allocator), vec![(BASE + 64, 968)]);
}

#[test]
fn leftover_smaller_than_a_header_is_given_up() {
    let mut allocator = fresh(BASE, 40);
    assert_eq!(allocator.allocate(16, 8), Some(BASE));
    assert_eq!(regions(&allocator), vec![(BASE + 16, 24)]);
    assert_eq!(allocator.allocate(16, 8), Some(BASE + 16));
    assert!(regions(&allocator).is_empty());
    assert_eq!(allocator.allocate(16, 8), None);
    allocator.deallocate(BASE + 16, 16, 8);
    assert_eq!(regions(&allocator), vec![(BASE + 16, 16)]);
    allocator.deallocate(BASE, 16, 8);
    assert_eq!(regions(&allocator), vec![(BASE, 32)]);
}

#[test]
fn request_that_fits_nowhere_changes_nothing() {
    let mut allocator = fresh(BASE, 128);
    assert_eq!(allocator.allocate(129, 8), None);
    assert_eq!(allocator.allocate(usize::MAX, 8), None);
    assert_eq!(allocator.allocate(16, 1 << 20), None);
    assert_eq!(regions(&allocator), vec![(BASE, 128)]);
    assert_eq!(allocator.allocate(128, 8), Some(BASE));
}

#[test]
fn first_fit_prefers_the_head_of_the_list() {
    let mut allocator = fresh(BASE, 256);
    let a = allocator.allocate(32, 8).unwrap();
    let _b = allocator.allocate(32, 8).unwrap();
    let c = allocator.allocate(64, 8).unwrap();
    let _d = allocator.allocate(32, 8).unwrap();
    assert_eq!((a, c), (BASE, BASE + 64));
    allocator.deallocate(c, 64, 8);
    allocator.deallocate(a, 32, 8);
    assert_eq!(regions(&allocator), vec![(BASE, 32), (BASE + 64, 64), (BASE + 160, 96)]);
    // The head of the list is too small; the next region is the first that fits.
    assert_eq!(allocator.allocate(48, 8), Some(BASE + 64));
    assert_eq!(regions(&allocator), vec![(BASE + 112, 16), (BASE, 32), (BASE + 160, 96)]);
}

#[test]
fn merge_leaves_separate_regions_alone() {
    let mut allocator = fresh(BASE, 256);
    allocator.find_block(16, 8);
    allocator.insert_free_region(BASE, 16);
    allocator.insert_free_region(BASE + 64, 32);
    allocator.insert_free_region(BASE + 128, 64);
    allocator.merge_free_blocks();
    assert_eq!(regions(&allocator), vec![(BASE + 128, 64), (BASE + 64, 32), (BASE, 16)]);
}

#[test]
fn merge_joins_regions_whatever_their_order() {
    let mut allocator = fresh(BASE, 256);
    allocator.find_block(16, 8);
    allocator.insert_free_region(BASE + 32, 16);
    allocator.insert_free_region(BASE + 200, 16);
    allocator.insert_free_region(BASE, 16);
    allocator.insert_free_region(BASE + 48, 16);
    allocator.insert_free_region(BASE + 16, 16);
    assert_eq!(
        regions(&allocator),
        vec![(BASE + 16, 16), (BASE + 48, 16), (BASE, 16), (BASE + 200, 16), (BASE + 32, 16)]
    );
    allocator.merge_free_blocks();
    // The run [BASE, BASE + 64) stays where its first region stood in the list.
    assert_eq!(
        allocator.free_blocks(),
        vec![
            Block { start: BASE, size: 64, next: Some(BASE + 200) },
            Block { start: BASE + 200, size: 16, next: None },
        ]
    );
}

#[test]
fn merge_of_an_empty_list() {
    let mut allocator = FreeListAllocator::new();
    allocator.merge_free_blocks();
    assert!(regions(&allocator).is_empty());
}

#[test]
fn deallocate_merges_with_both_neighbours() {
    let mut allocator = fresh(BASE, 96);
    let a = allocator.allocate(16, 8).unwrap();
    let b = allocator.allocate(16, 8).unwrap();
    let c = allocator.allocate(16, 8).unwrap();
    assert_eq!((a, b, c), (BASE, BASE + 16, BASE + 32));
    assert_eq!(regions(&allocator), vec![(BASE + 48, 48)]);
    allocator.deallocate(b, 16, 8);
    assert_eq!(regions(&allocator), vec![(BASE + 16, 16), (BASE + 48, 48)]);
    allocator.deallocate(a, 16, 8);
    assert_eq!(regions(&allocator), vec![(BASE, 32), (BASE + 48, 48)]);
    allocator.deallocate(c, 16, 8);
    assert_eq!(regions(&allocator), vec![(BASE, 96)]);
}

#[test]
fn deallocate_uses_the_adjusted_size() {
    let mut allocator = fresh(BASE, 128);
    let a = allocator.allocate(1, 1).unwrap();
    let b = allocator.allocate(20, 32).unwrap();
    assert_eq!((a, b), (BASE, BASE + 32));
    // [BASE + 16, BASE + 32) was padding in front of `b`.
    assert_eq!(regions(&allocator), vec![(BASE + 64, 64)]);
    allocator.deallocate(a, 1, 1);
    assert_eq!(regions(&allocator), vec![(BASE, 16), (BASE + 64, 64)]);
    allocator.deallocate(b, 20, 32);
    assert_eq!(regions(&allocator), vec![(BASE + 32, 96), (BASE, 16)]);
}

#[test]
fn is_unused_tells_held_from_free() {
    let mut allocator = fresh(BASE, 128);
    let a = allocator.allocate(32, 8).unwrap();
    assert_eq!(regions(&allocator), vec![(BASE + 32, 96)]);
    assert!(allocator.is_unused(a, 32));
    assert!(allocator.is_unused(a + 8, 16));
    assert!(allocator.is_unused(a, 0));
    // Reaches into the free region.
    assert!(!allocator.is_unused(a, 33));
    assert!(!allocator.is_unused(BASE + 32, 16));
    assert!(!allocator.is_unused(BASE + 120, 8));
    // Leaves the arena.
    assert!(!allocator.is_unused(BASE - 1, 8));
    assert!(!allocator.is_unused(BASE + 128, 1));
    assert!(!allocator.is_unused(a, usize::MAX));
    allocator.deallocate(a, 32, 8);
    assert!(!allocator.is_unused(a, 32));
}

#[test]
fn is_unused_accepts_the_empty_region_at_the_end_of_the_arena() {
    let mut allocator = fresh(BASE, 32);
    assert_eq!(allocator.allocate(32, 8), Some(BASE));
    assert!(allocator.is_unused(BASE + 32, 0));
    assert!(allocator.is_unused(BASE, 32));
}

#[test]
fn arena_at_address_zero() {
    let mut allocator = fresh(0, 64);
    assert_eq!(allocator.allocate(16, 8), Some(0));
    assert_eq!(allocator.allocate(16, 8), Some(16));
    allocator.deallocate(0, 16, 8);
    assert_eq!(
        allocator.free_blocks(),
        vec![Block { start: 0, size: 16, next: Some(32) }, Block { start: 32, size: 32, next: None }]
    );
    allocator.deallocate(16, 16, 8);
    assert_eq!(allocator.free_blocks(), vec![Block { start: 0, size: 64, next: None }]);
}

#[test]
fn arena_at_the_top_of_the_address_space() {
    let top = usize::MAX - 63;
    let mut allocator = fresh(top, 63);
    assert_eq!(regions(&allocator), vec![(top, 63)]);
    // Rounding the second region's start up to 64 would leave the address space.
    assert_eq!(allocator.allocate(16, 8), Some(top));
    assert_eq!(allocator.allocate(16, 64), None);
    assert_eq!(allocator.allocate(40, 8), Some(top + 16));
    assert!(regions(&allocator).is_empty());
    allocator.deallocate(top + 16, 40, 8);
    allocator.deallocate(top, 16, 8);
    assert_eq!(regions(&allocator), vec![(top, 56)]);
}
