use maas_backend::config::MemoryConfig;
use maas_backend::slab::{Slab, SlabPool};

#[test]
fn test_slab_new_is_zeroed() {
    let slab = Slab::new(3, 16);
    assert_eq!(slab.id, 3);
    assert_eq!(slab.size, 16);
    assert_eq!(slab.data.len(), 16);
    assert!(slab.data.iter().all(|b| *b == 0));
    assert!(!slab.in_use);
}

#[test]
fn test_freed_slab_is_zeroed() {
    let mut pool = SlabPool::new(8, 0);
    let id = pool.allocate(64, 0).unwrap();

    // Scribble over the slab while it is in use.
    for b in pool.all_slabs[id].data.iter_mut() {
        *b = 0xAB;
    }
    assert!(pool.all_slabs[id].data.iter().any(|b| *b != 0));

    // The moment deallocate returns, every byte is zero again.
    assert!(pool.deallocate(id));
    assert_eq!(pool.all_slabs[id].data.len(), 8);
    assert!(pool.all_slabs[id].data.iter().all(|b| *b == 0));
}

#[test]
fn test_pool_reuse_has_no_byte_cost() {
    let mut pool = SlabPool::new(128, 1);
    assert_eq!(pool.total_allocated, 128);

    let id = pool.allocate(1024, 128).unwrap();
    assert_eq!(pool.total_allocated, 128);
    assert!(pool.deallocate(id));
    assert_eq!(pool.total_allocated, 128);
}

#[test]
fn test_pool_growth_respects_ceiling() {
    let mut pool = SlabPool::new(128, 0);

    // 100 + 128 > 200: no capacity.
    assert_eq!(pool.allocate(200, 100), None);
    // 64 + 128 <= 200: grows by one slab.
    let id = pool.allocate(200, 64).unwrap();
    assert_eq!(id, 0);
    assert_eq!(pool.total_allocated, 128);
}

#[test]
fn test_pool_deallocate_guards() {
    let mut pool = SlabPool::new(32, 1);
    // Unknown id.
    assert!(!pool.deallocate(5));
    // Known but already free.
    assert!(!pool.deallocate(0));

    let id = pool.allocate(64, 32).unwrap();
    assert!(pool.deallocate(id));
    // Double free at the pool level.
    assert!(!pool.deallocate(id));
    assert_eq!(pool.free_slabs.len(), 1);
}

#[test]
fn test_pool_stats() {
    let mut pool = SlabPool::new(64, 2);
    pool.allocate(1024, 128).unwrap();

    let stats = pool.get_stats();
    assert_eq!(stats.size, 64);
    assert_eq!(stats.total_slabs, 2);
    assert_eq!(stats.in_use_slabs, 1);
    assert_eq!(stats.free_slabs, 1);
    assert_eq!(stats.total_allocated_bytes, 128);
    assert_eq!(stats.in_use_bytes, 64);
}

#[test]
fn test_memory_config_validate() {
    let good = MemoryConfig {
        slab_sizes: vec![1024, 4096, 16384],
        max_pool_size: 1024 * 1024,
        initial_slabs_per_size: 2,
    };
    assert!(good.validate());

    let unsorted = MemoryConfig {
        slab_sizes: vec![4096, 1024],
        max_pool_size: 1024 * 1024,
        initial_slabs_per_size: 0,
    };
    assert!(!unsorted.validate());

    let duplicated = MemoryConfig {
        slab_sizes: vec![1024, 1024],
        max_pool_size: 1024 * 1024,
        initial_slabs_per_size: 0,
    };
    assert!(!duplicated.validate());

    let prewarm_over_ceiling = MemoryConfig {
        slab_sizes: vec![1024],
        max_pool_size: 2048,
        initial_slabs_per_size: 3,
    };
    assert!(!prewarm_over_ceiling.validate());

    let prewarm_overflows = MemoryConfig {
        slab_sizes: vec![usize::MAX],
        max_pool_size: usize::MAX,
        initial_slabs_per_size: 2,
    };
    assert!(!prewarm_overflows.validate());

    let empty = MemoryConfig {
        slab_sizes: vec![],
        max_pool_size: 0,
        initial_slabs_per_size: 0,
    };
    assert!(empty.validate());
}

#[test]
fn test_allocate_request_holds_size() {
    let req = maas_backend::AllocateRequest { size_bytes: 4096 };
    assert_eq!(req.size_bytes, 4096);
}
