use maas_backend::allocator::{AllocatorError, SlabAllocator};

#[test]
fn test_slab_allocator_basic() {
    let mut allocator = SlabAllocator::new(vec![1024, 4096, 16384], 1024 * 1024, 2);

    // Allocate 500 bytes - should use 1024 byte slab
    let (id, size, _) = allocator.allocate(500).unwrap();
    assert_eq!(size, 1024);

    // Deallocate
    let freed = allocator.deallocate(id).unwrap();
    assert_eq!(freed, 1024);
}

#[test]
fn test_slab_allocator_reuse() {
    let mut allocator = SlabAllocator::new(vec![1024], 10 * 1024, 1);

    let (id1, _, _) = allocator.allocate(1000).unwrap();
    allocator.deallocate(id1).unwrap();

    let (_id2, _, _) = allocator.allocate(1000).unwrap();

    // Should have reused the slab
    assert_eq!(allocator.get_active_allocations(), 1);
}

#[test]
fn test_slab_allocator_max_size() {
    let mut allocator = SlabAllocator::new(vec![1024], 2048, 0);

    // Should allocate 2 slabs (2048 bytes total)
    let (id1, _, _) = allocator.allocate(1000).unwrap();
    let (_id2, _, _) = allocator.allocate(1000).unwrap();

    // Third allocation should fail (would exceed max pool size)
    assert!(allocator.allocate(1000).is_err());

    // After deallocation, should be able to allocate again
    allocator.deallocate(id1).unwrap();
    assert!(allocator.allocate(1000).is_ok());
}

#[test]
fn test_smallest_fitting_class_is_chosen() {
    let mut allocator = SlabAllocator::new(vec![1024, 4096, 16384], 1024 * 1024, 0);

    let (_, size, _) = allocator.allocate(1).unwrap();
    assert_eq!(size, 1024);
    let (_, size, _) = allocator.allocate(1024).unwrap();
    assert_eq!(size, 1024);
    let (_, size, _) = allocator.allocate(1025).unwrap();
    assert_eq!(size, 4096);
    let (_, size, _) = allocator.allocate(16384).unwrap();
    assert_eq!(size, 16384);
}

#[test]
fn test_size_too_large() {
    let mut allocator = SlabAllocator::new(vec![1024, 4096], 1024 * 1024, 0);

    assert_eq!(allocator.allocate(4097), Err(AllocatorError::SizeTooLarge));
    // No configured class at all: every request is too large.
    let mut empty = SlabAllocator::new(vec![], 1024, 0);
    assert_eq!(empty.allocate(1), Err(AllocatorError::SizeTooLarge));
}

#[test]
fn test_allocate_zero_takes_smallest_class() {
    let mut allocator = SlabAllocator::new(vec![512, 1024], 4096, 0);

    // A zero-byte request is accepted and still occupies a full slab of the
    // smallest configured class.
    let (_, size, _) = allocator.allocate(0).unwrap();
    assert_eq!(size, 512);
    assert_eq!(allocator.get_total_allocated(), 512);
    assert_eq!(allocator.get_total_in_use(), 512);
}

#[test]
fn test_ceiling_scenario() {
    // Classes [1024, 4096], ceiling 2048, no pre-warm.
    let mut allocator = SlabAllocator::new(vec![1024, 4096], 2048, 0);

    // First allocation grows the 1024 pool: 1024 of 2048 used.
    let (id1, size1, _) = allocator.allocate(500).unwrap();
    assert_eq!(size1, 1024);
    assert_eq!(allocator.get_total_allocated(), 1024);

    // Second allocation brings the total to exactly the ceiling: succeeds.
    let (_id2, size2, _) = allocator.allocate(500).unwrap();
    assert_eq!(size2, 1024);
    assert_eq!(allocator.get_total_allocated(), 2048);

    // A third must fail: another 1024 would pass the ceiling.
    assert_eq!(allocator.allocate(500), Err(AllocatorError::PoolExhausted));

    // Releasing the first frees in-use bytes but not allocated bytes.
    assert_eq!(allocator.deallocate(id1), Ok(1024));
    assert_eq!(allocator.get_total_allocated(), 2048);
    assert_eq!(allocator.get_total_in_use(), 1024);

    // The next allocation reuses the freed slab without growing.
    let (_, size4, _) = allocator.allocate(500).unwrap();
    assert_eq!(size4, 1024);
    assert_eq!(allocator.get_total_allocated(), 2048);
    assert_eq!(allocator.get_total_in_use(), 2048);
}

#[test]
fn test_reuse_before_growth() {
    let mut allocator = SlabAllocator::new(vec![1024], 4096, 2);
    assert_eq!(allocator.get_total_allocated(), 2048);

    // With free pre-warmed slabs, allocation must not grow the pool.
    let (_, _, slab1) = allocator.allocate(100).unwrap();
    assert_eq!(allocator.get_total_allocated(), 2048);
    let (_, _, slab2) = allocator.allocate(100).unwrap();
    assert_eq!(allocator.get_total_allocated(), 2048);
    assert_ne!(slab1, slab2);

    // Both pre-warmed slabs are taken; only now does the pool grow.
    allocator.allocate(100).unwrap();
    assert_eq!(allocator.get_total_allocated(), 3072);
}

#[test]
fn test_fifo_reuse_order() {
    let mut allocator = SlabAllocator::new(vec![64], 1024, 0);
    let (id_a, _, slab_a) = allocator.allocate(1).unwrap();
    let (id_b, _, slab_b) = allocator.allocate(1).unwrap();

    // Free a then b; the oldest-freed slab must come back first.
    allocator.deallocate(id_a).unwrap();
    allocator.deallocate(id_b).unwrap();
    let (_, _, first) = allocator.allocate(1).unwrap();
    let (_, _, second) = allocator.allocate(1).unwrap();
    assert_eq!(first, slab_a);
    assert_eq!(second, slab_b);
}

#[test]
fn test_double_free_returns_not_found() {
    let mut allocator = SlabAllocator::new(vec![1024], 4096, 0);
    let (id, _, _) = allocator.allocate(100).unwrap();

    assert_eq!(allocator.deallocate(id), Ok(1024));
    let free_before = allocator.get_pool_stats()[0].free_slabs;

    // The second release of the same id fails and corrupts nothing.
    assert_eq!(allocator.deallocate(id), Err(AllocatorError::NotFound));
    let stats = allocator.get_pool_stats();
    assert_eq!(stats[0].free_slabs, free_before);
    assert_eq!(stats[0].total_slabs, 1);
    assert_eq!(allocator.get_active_allocations(), 0);
}

#[test]
fn test_deallocate_unknown_id() {
    let mut allocator = SlabAllocator::new(vec![1024], 4096, 0);
    assert_eq!(allocator.deallocate(7), Err(AllocatorError::NotFound));
}

#[test]
fn test_stats_idempotent() {
    let mut allocator = SlabAllocator::new(vec![256, 1024], 8192, 1);
    allocator.allocate(200).unwrap();
    let (id, _, _) = allocator.allocate(900).unwrap();
    allocator.deallocate(id).unwrap();

    // Two reads with no intervening allocate/deallocate agree exactly.
    assert_eq!(allocator.get_total_allocated(), allocator.get_total_allocated());
    assert_eq!(allocator.get_total_in_use(), allocator.get_total_in_use());
    assert_eq!(allocator.get_active_allocations(), allocator.get_active_allocations());
    assert_eq!(allocator.get_utilization_hundredths(), allocator.get_utilization_hundredths());
    assert_eq!(allocator.get_pool_stats(), allocator.get_pool_stats());
}

#[test]
fn test_pool_stats_values() {
    let mut allocator = SlabAllocator::new(vec![256, 1024], 8192, 1);
    allocator.allocate(1000).unwrap();

    let stats = allocator.get_pool_stats();
    assert_eq!(stats.len(), 2);
    // Sorted by size class ascending.
    assert_eq!(stats[0].size, 256);
    assert_eq!(stats[0].total_slabs, 1);
    assert_eq!(stats[0].in_use_slabs, 0);
    assert_eq!(stats[0].free_slabs, 1);
    assert_eq!(stats[0].total_allocated_bytes, 256);
    assert_eq!(stats[0].in_use_bytes, 0);
    assert_eq!(stats[1].size, 1024);
    assert_eq!(stats[1].total_slabs, 1);
    assert_eq!(stats[1].in_use_slabs, 1);
    assert_eq!(stats[1].free_slabs, 0);
    assert_eq!(stats[1].total_allocated_bytes, 1024);
    assert_eq!(stats[1].in_use_bytes, 1024);
}

#[test]
fn test_utilization() {
    let mut allocator = SlabAllocator::new(vec![1024], 2048, 0);
    assert_eq!(allocator.get_utilization_hundredths(), 0);

    allocator.allocate(1).unwrap();
    // 1024 of 2048 allocated: 50.00%.
    assert_eq!(allocator.get_utilization_hundredths(), 5000);

    allocator.allocate(1).unwrap();
    assert_eq!(allocator.get_utilization_hundredths(), 10000);
}

#[test]
fn test_zero_ceiling() {
    let mut allocator = SlabAllocator::new(vec![1024], 0, 0);
    assert_eq!(allocator.get_utilization_hundredths(), 0);
    assert_eq!(allocator.get_max_pool_size(), 0);
    assert_eq!(allocator.allocate(1), Err(AllocatorError::PoolExhausted));
}

#[test]
fn test_max_pool_size_getter() {
    let allocator = SlabAllocator::new(vec![1024], 2048, 0);
    assert_eq!(allocator.get_max_pool_size(), 2048);
    assert!(!allocator.id_space_exhausted());
}

#[test]
fn test_allocation_ids_are_fresh() {
    let mut allocator = SlabAllocator::new(vec![64], 4096, 0);
    let (id1, _, _) = allocator.allocate(1).unwrap();
    allocator.deallocate(id1).unwrap();
    let (id2, _, _) = allocator.allocate(1).unwrap();
    // Ids are never recycled, even when slabs are.
    assert_ne!(id1, id2);
}
