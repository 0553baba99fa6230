use free_list_allocator::FreeListAllocator;

const HEAP_START: usize = 0x1000;

#[test]
fn test_allocator() {
    let mut allocator = FreeListAllocator::new();
    allocator.init(HEAP_START, 1024);

    let ptr = allocator.allocate(16, 8);
    assert!(ptr.is_some(), "L'allocation a échoué.");

    allocator.deallocate(ptr.unwrap(), 16, 8);
}
