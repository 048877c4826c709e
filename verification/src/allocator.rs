//! The slab allocator: routes each request to the pool of the smallest
//! size class that fits, enforces a global byte ceiling jointly across all
//! pools, and maintains the allocation-id namespace.
//!
//! The allocator is an explicit owned state object: callers thread it by
//! reference through the serving layer and scope their own exclusive-access
//! guard around each call, so the read of the global total and the
//! capacity-bounded growth below form one critical section.

use std::collections::HashMap;

use vstd::prelude::*;

use crate::slab::{
    all_zero, in_use_count, lemma_in_use_count_bounds, pool_wf, spec_pool_stats, PoolModel,
    SlabModel, SlabPool, SlabPoolStats,
};

verus! {

broadcast use vstd::std_specs::hash::group_hash_axioms;

/// Why an allocator call failed.
#[derive(Debug, Clone, Copy, PartialEq, Eq, Structural)]
pub enum AllocatorError {
    /// The requested size exceeds every configured size class.
    SizeTooLarge,
    /// Growth would push the global allocated total past the ceiling.
    PoolExhausted,
    /// Deallocation of an unknown or already-released allocation id.
    NotFound,
    /// The allocation index pointed at a slab its pool could not release.
    InternalInconsistency,
}

/// Mathematical image of a `SlabAllocator`.
#[verifier::ext_equal]
pub ghost struct AllocatorModel {
    pub pools: Seq<PoolModel>,
    pub max_pool_size: usize,
    /// allocation id -> (size class, slab id)
    pub allocations: Map<u64, (usize, usize)>,
    pub next_allocation_id: u64,
}

/// Bytes allocated across `pools`.
pub open spec fn sum_allocated(pools: Seq<PoolModel>) -> int
    decreases pools.len(),
{
    if pools.len() == 0 {
        0
    } else {
        sum_allocated(pools.drop_last()) + pools.last().total_allocated
    }
}

/// Bytes in use across `pools`.
pub open spec fn sum_in_use(pools: Seq<PoolModel>) -> int
    decreases pools.len(),
{
    if pools.len() == 0 {
        0
    } else {
        sum_in_use(pools.drop_last()) + in_use_count(pools.last().slabs) * pools.last().size
    }
}

/// The pools' size classes are strictly ascending (hence deduplicated).
pub open spec fn sizes_ascending(pools: Seq<PoolModel>) -> bool {
    forall|i: int, j: int|
        0 <= i < j < pools.len() ==> (#[trigger] pools[i]).size < (#[trigger] pools[j]).size
}

/// Index of the first pool whose size class fits a request of `n` bytes;
/// `pools.len()` when none does. With classes sorted ascending this is the
/// classic round-up-to-nearest-size-class policy.
pub open spec fn fit_index(pools: Seq<PoolModel>, n: usize) -> int
    decreases pools.len(),
{
    if pools.len() == 0 {
        0
    } else if pools[0].size >= n {
        0
    } else {
        1 + fit_index(pools.subrange(1, pools.len() as int), n)
    }
}

/// `(size class, slab id)` names a slab currently in use in the matching pool.
pub open spec fn alloc_entry_live(pools: Seq<PoolModel>, e: (usize, usize)) -> bool {
    exists|pi: int|
        0 <= pi < pools.len() && (#[trigger] pools[pi]).size == e.0 && e.1 < pools[pi].slabs.len()
            && pools[pi].slabs[e.1 as int].in_use
}

/// Well-formedness of the allocator:
/// - every pool is well formed and the size classes ascend strictly;
/// - the bytes allocated across all pools never exceed the ceiling;
/// - every allocation-index entry names a slab currently in use in the
///   matching pool, no two entries name the same slab, and every recorded
///   id is older than the next id to mint.
pub open spec fn alloc_wf(a: AllocatorModel) -> bool {
    &&& forall|i: int| 0 <= i < a.pools.len() ==> pool_wf(#[trigger] a.pools[i])
    &&& sizes_ascending(a.pools)
    &&& sum_allocated(a.pools) <= a.max_pool_size
    &&& forall|id: u64|
        #[trigger] a.allocations.contains_key(id) ==> alloc_entry_live(a.pools, a.allocations[id])
    &&& forall|id1: u64, id2: u64|
        #![trigger a.allocations[id1], a.allocations[id2]]
        a.allocations.contains_key(id1) && a.allocations.contains_key(id2) && id1 != id2
            ==> a.allocations[id1] != a.allocations[id2]
    &&& forall|id: u64| #[trigger] a.allocations.contains_key(id) ==> id < a.next_allocation_id
}

pub proof fn lemma_sum_allocated_nonneg(pools: Seq<PoolModel>)
    ensures
        sum_allocated(pools) >= 0,
    decreases pools.len(),
{
    if pools.len() > 0 {
        lemma_sum_allocated_nonneg(pools.drop_last());
    }
}

pub proof fn lemma_sum_allocated_take_step(pools: Seq<PoolModel>, i: int)
    requires
        0 <= i < pools.len(),
    ensures
        sum_allocated(pools.take(i + 1)) == sum_allocated(pools.take(i))
            + pools[i].total_allocated,
{
    assert(pools.take(i + 1).drop_last() =~= pools.take(i));
    assert(pools.take(i + 1).last() == pools[i]);
}

pub proof fn lemma_sum_allocated_prefix_le(pools: Seq<PoolModel>, i: int)
    requires
        0 <= i <= pools.len(),
    ensures
        sum_allocated(pools.take(i)) <= sum_allocated(pools),
    decreases pools.len() - i,
{
    if i == pools.len() {
        assert(pools.take(i) =~= pools);
    } else {
        lemma_sum_allocated_take_step(pools, i);
        lemma_sum_allocated_prefix_le(pools, i + 1);
    }
}

pub proof fn lemma_sum_allocated_element(pools: Seq<PoolModel>, i: int)
    requires
        0 <= i < pools.len(),
    ensures
        pools[i].total_allocated <= sum_allocated(pools),
{
    lemma_sum_allocated_take_step(pools, i);
    lemma_sum_allocated_nonneg(pools.take(i));
    lemma_sum_allocated_prefix_le(pools, i + 1);
}

pub proof fn lemma_sum_allocated_update(pools: Seq<PoolModel>, i: int, p: PoolModel)
    requires
        0 <= i < pools.len(),
    ensures
        sum_allocated(pools.update(i, p)) == sum_allocated(pools) - pools[i].total_allocated
            + p.total_allocated,
    decreases pools.len(),
{
    let u = pools.update(i, p);
    if i == pools.len() - 1 {
        assert(u.drop_last() =~= pools.drop_last());
        assert(u.last() == p);
    } else {
        assert(u.drop_last() =~= pools.drop_last().update(i, p));
        assert(u.last() == pools.last());
        lemma_sum_allocated_update(pools.drop_last(), i, p);
    }
}

pub proof fn lemma_sum_in_use_take_step(pools: Seq<PoolModel>, i: int)
    requires
        0 <= i < pools.len(),
    ensures
        sum_in_use(pools.take(i + 1)) == sum_in_use(pools.take(i)) + in_use_count(pools[i].slabs)
            * pools[i].size,
{
    assert(pools.take(i + 1).drop_last() =~= pools.take(i));
    assert(pools.take(i + 1).last() == pools[i]);
}

/// In-use bytes never exceed allocated bytes.
pub proof fn lemma_sum_in_use_le_sum_allocated(pools: Seq<PoolModel>)
    requires
        forall|i: int| 0 <= i < pools.len() ==> pool_wf(#[trigger] pools[i]),
    ensures
        0 <= sum_in_use(pools),
        sum_in_use(pools) <= sum_allocated(pools),
    decreases pools.len(),
{
    if pools.len() > 0 {
        let p = pools.last();
        assert(pool_wf(p));
        lemma_in_use_count_bounds(p.slabs);
        assert(in_use_count(p.slabs) * p.size >= 0) by (nonlinear_arith)
            requires
                in_use_count(p.slabs) >= 0,
                p.size >= 0,
        ;
        assert(in_use_count(p.slabs) * p.size <= p.size * p.slabs.len()) by (nonlinear_arith)
            requires
                0 <= in_use_count(p.slabs) <= p.slabs.len(),
                p.size >= 0,
        ;
        assert(forall|i: int|
            0 <= i < pools.drop_last().len() ==> pool_wf(#[trigger] pools.drop_last()[i]));
        lemma_sum_in_use_le_sum_allocated(pools.drop_last());
    }
}

pub proof fn lemma_fit_index_props(pools: Seq<PoolModel>, n: usize)
    ensures
        0 <= fit_index(pools, n) <= pools.len(),
        fit_index(pools, n) < pools.len() ==> pools[fit_index(pools, n)].size >= n,
        forall|j: int| 0 <= j < fit_index(pools, n) ==> (#[trigger] pools[j]).size < n,
    decreases pools.len(),
{
    if pools.len() > 0 && pools[0].size < n {
        let rest = pools.subrange(1, pools.len() as int);
        lemma_fit_index_props(rest, n);
        assert forall|j: int| 0 <= j < fit_index(pools, n) implies (#[trigger] pools[j]).size
            < n by {
            if j > 0 {
                assert(rest[j - 1] == pools[j]);
            }
        }
    }
}

pub proof fn lemma_fit_index_char(pools: Seq<PoolModel>, n: usize, ci: int)
    requires
        0 <= ci <= pools.len(),
        forall|j: int| 0 <= j < ci ==> (#[trigger] pools[j]).size < n,
        ci < pools.len() ==> pools[ci].size >= n,
    ensures
        fit_index(pools, n) == ci,
    decreases pools.len(),
{
    if pools.len() > 0 {
        if ci > 0 {
            let rest = pools.subrange(1, pools.len() as int);
            assert forall|j: int| 0 <= j < ci - 1 implies (#[trigger] rest[j]).size < n by {
                assert(rest[j] == pools[j + 1]);
            }
            assert(ci - 1 < rest.len() ==> rest[ci - 1].size >= n);
            lemma_fit_index_char(rest, n, ci - 1);
        }
    }
}

/// The round-up policy is exact: with size classes sorted ascending, the
/// chosen class is the smallest configured class that fits the request, and
/// no class fits if and only if the request exceeds the largest class.
pub proof fn lemma_fit_index_smallest(pools: Seq<PoolModel>, n: usize)
    requires
        sizes_ascending(pools),
    ensures
        0 <= fit_index(pools, n) <= pools.len(),
        fit_index(pools, n) < pools.len() ==> {
            let fi = fit_index(pools, n);
            pools[fi].size >= n && forall|j: int|
                0 <= j < pools.len() && (#[trigger] pools[j]).size >= n ==> pools[fi].size
                    <= pools[j].size
        },
        fit_index(pools, n) == pools.len() <==> forall|j: int|
            0 <= j < pools.len() ==> (#[trigger] pools[j]).size < n,
{
    lemma_fit_index_props(pools, n);
    let fi = fit_index(pools, n);
    if fi < pools.len() {
        assert forall|j: int|
            0 <= j < pools.len() && (#[trigger] pools[j]).size >= n implies pools[fi].size
            <= pools[j].size by {
            if j < fi {
                assert(pools[j].size < n);
            }
        }
    }
}

/// The size classes are strictly ascending (deduplicated by construction).
pub open spec fn strictly_ascending(sizes: Seq<usize>) -> bool {
    forall|i: int, j: int| 0 <= i < j < sizes.len() ==> sizes[i] < sizes[j]
}

/// Bytes that pre-warming `count` slabs of every class in `sizes` allocates.
pub open spec fn prewarm_total(sizes: Seq<usize>, count: usize) -> int
    decreases sizes.len(),
{
    if sizes.len() == 0 {
        0
    } else {
        prewarm_total(sizes.drop_last(), count) + sizes.last() * count
    }
}

pub proof fn lemma_prewarm_total_take_step(sizes: Seq<usize>, count: usize, i: int)
    requires
        0 <= i < sizes.len(),
    ensures
        prewarm_total(sizes.take(i + 1), count) == prewarm_total(sizes.take(i), count) + sizes[i]
            * count,
{
    assert(sizes.take(i + 1).drop_last() =~= sizes.take(i));
    assert(sizes.take(i + 1).last() == sizes[i]);
}

pub proof fn lemma_prewarm_total_nonneg(sizes: Seq<usize>, count: usize)
    ensures
        prewarm_total(sizes, count) >= 0,
    decreases sizes.len(),
{
    if sizes.len() > 0 {
        lemma_prewarm_total_nonneg(sizes.drop_last(), count);
        assert(sizes.last() * count >= 0) by (nonlinear_arith)
            requires
                sizes.last() >= 0,
                count >= 0,
        ;
    }
}

pub proof fn lemma_prewarm_total_prefix_le(sizes: Seq<usize>, count: usize, i: int)
    requires
        0 <= i <= sizes.len(),
    ensures
        prewarm_total(sizes.take(i), count) <= prewarm_total(sizes, count),
    decreases sizes.len() - i,
{
    if i == sizes.len() {
        assert(sizes.take(i) =~= sizes);
    } else {
        lemma_prewarm_total_take_step(sizes, count, i);
        assert(sizes[i] * count >= 0) by (nonlinear_arith)
            requires
                sizes[i] >= 0,
                count >= 0,
        ;
        lemma_prewarm_total_prefix_le(sizes, count, i + 1);
    }
}

/// Owns one `SlabPool` per configured size class (sorted ascending), the
/// global capacity ceiling, and the allocation index.
pub struct SlabAllocator {
    pub pools: Vec<SlabPool>,
    pub max_pool_size: usize,
    pub allocations: HashMap<u64, (usize, usize)>,
    pub next_allocation_id: u64,
}

impl View for SlabAllocator {
    type V = AllocatorModel;

    open spec fn view(&self) -> AllocatorModel {
        AllocatorModel {
            pools: self.pools@.map_values(|p: SlabPool| p@),
            max_pool_size: self.max_pool_size,
            allocations: self.allocations@,
            next_allocation_id: self.next_allocation_id,
        }
    }
}

impl SlabAllocator {
    /// An allocator over the given size classes, each pool pre-warmed with
    /// `initial_per_size` free slabs, under a `max_pool_size`-byte ceiling.
    ///
    /// The caller supplies strictly ascending size classes and a pre-warm
    /// count whose total cost stays within the ceiling; `MemoryConfig::
    /// validate` checks exactly these conditions.
    pub fn new(slab_sizes: Vec<usize>, max_pool_size: usize, initial_per_size: usize) -> (allocator:
        SlabAllocator)
        requires
            strictly_ascending(slab_sizes@),
            prewarm_total(slab_sizes@, initial_per_size) <= max_pool_size,
        ensures
            alloc_wf(allocator@),
            allocator@.max_pool_size == max_pool_size,
            allocator@.pools.len() == slab_sizes@.len(),
            forall|i: int|
                0 <= i < slab_sizes@.len() ==> {
                    let p = #[trigger] allocator@.pools[i];
                    &&& p.size == slab_sizes@[i]
                    &&& p.slabs.len() == initial_per_size
                    &&& p.free.len() == initial_per_size
                    &&& in_use_count(p.slabs) == 0
                },
            sum_allocated(allocator@.pools) == prewarm_total(slab_sizes@, initial_per_size),
            allocator@.allocations == Map::<u64, (usize, usize)>::empty(),
            allocator@.next_allocation_id == 0,
    {
        let n: usize = slab_sizes.len();
        let mut pools: Vec<SlabPool> = Vec::new();
        for i in 0..n
            invariant
                n == slab_sizes@.len(),
                strictly_ascending(slab_sizes@),
                prewarm_total(slab_sizes@, initial_per_size) <= max_pool_size,
                pools@.len() == i,
                forall|k: int|
                    0 <= k < i ==> {
                        let p = (#[trigger] pools@[k])@;
                        &&& pool_wf(p)
                        &&& p.size == slab_sizes@[k]
                        &&& p.slabs.len() == initial_per_size
                        &&& p.free.len() == initial_per_size
                        &&& in_use_count(p.slabs) == 0
                        &&& p.total_allocated == slab_sizes@[k] * initial_per_size
                    },
                sum_allocated(pools@.map_values(|p: SlabPool| p@)) == prewarm_total(
                    slab_sizes@.take(i as int),
                    initial_per_size,
                ),
        {
            let ghost pre_models = pools@.map_values(|p: SlabPool| p@);
            proof {
                // This class's pre-warm cost is a summand of the total, so it
                // fits in a usize.
                lemma_prewarm_total_take_step(slab_sizes@, initial_per_size, i as int);
                lemma_prewarm_total_nonneg(slab_sizes@.take(i as int), initial_per_size);
                lemma_prewarm_total_prefix_le(slab_sizes@, initial_per_size, i as int + 1);
            }
            let pool = SlabPool::new(slab_sizes[i], initial_per_size);
            pools.push(pool);
            proof {
                assert(pools@.map_values(|p: SlabPool| p@) =~= pre_models.push(pool@));
                assert(pools@.map_values(|p: SlabPool| p@).drop_last() =~= pre_models);
                assert(slab_sizes@.take(i as int + 1).drop_last() =~= slab_sizes@.take(i as int));
            }
        }
        let allocator = SlabAllocator {
            pools,
            max_pool_size,
            allocations: HashMap::new(),
            next_allocation_id: 0,
        };
        proof {
            assert(slab_sizes@.take(n as int) =~= slab_sizes@);
            assert(allocator@.allocations =~= Map::<u64, (usize, usize)>::empty());
        }
        allocator
    }

    /// Total bytes allocated across all pools, read under one consistent view.
    pub fn get_total_allocated(&self) -> (total: usize)
        requires
            alloc_wf(self@),
        ensures
            total == sum_allocated(self@.pools),
    {
        let n: usize = self.pools.len();
        let mut total: usize = 0;
        for i in 0..n
            invariant
                alloc_wf(self@),
                n == self@.pools.len(),
                total == sum_allocated(self@.pools.take(i as int)),
        {
            proof {
                lemma_sum_allocated_take_step(self@.pools, i as int);
                lemma_sum_allocated_prefix_le(self@.pools, i as int + 1);
                lemma_sum_allocated_nonneg(self@.pools.take(i as int));
            }
            total = total + self.pools[i].total_allocated;
        }
        proof {
            assert(self@.pools.take(n as int) =~= self@.pools);
        }
        total
    }

    /// Total bytes currently in use across all pools.
    pub fn get_total_in_use(&self) -> (total: usize)
        requires
            alloc_wf(self@),
        ensures
            total == sum_in_use(self@.pools),
    {
        let n: usize = self.pools.len();
        let mut total: usize = 0;
        proof {
            lemma_sum_allocated_nonneg(self@.pools);
        }
        for i in 0..n
            invariant
                alloc_wf(self@),
                n == self@.pools.len(),
                total == sum_in_use(self@.pools.take(i as int)),
                total <= sum_allocated(self@.pools),
        {
            proof {
                assert(self.pools[i as int]@ == self@.pools[i as int]);
                assert(pool_wf(self@.pools[i as int]));
            }
            let stats = self.pools[i].get_stats();
            proof {
                let p = self@.pools[i as int];
                lemma_in_use_count_bounds(p.slabs);
                assert(in_use_count(p.slabs) * p.size <= p.size * p.slabs.len())
                    by (nonlinear_arith)
                    requires
                        0 <= in_use_count(p.slabs) <= p.slabs.len(),
                        p.size >= 0,
                ;
                assert(in_use_count(p.slabs) * p.size >= 0) by (nonlinear_arith)
                    requires
                        in_use_count(p.slabs) >= 0,
                        p.size >= 0,
                ;
                lemma_sum_in_use_take_step(self@.pools, i as int);
                assert(forall|k: int|
                    0 <= k < self@.pools.take(i as int + 1).len() ==> pool_wf(
                        #[trigger] self@.pools.take(i as int + 1)[k],
                    ));
                lemma_sum_in_use_le_sum_allocated(self@.pools.take(i as int + 1));
                lemma_sum_allocated_prefix_le(self@.pools, i as int + 1);
            }
            total = total + stats.in_use_bytes;
        }
        proof {
            assert(self@.pools.take(n as int) =~= self@.pools);
        }
        total
    }

    /// The number of live allocation ids.
    pub fn get_active_allocations(&self) -> (count: usize)
        ensures
            count == self@.allocations.len(),
    {
        self.allocations.len()
    }

    /// Per-pool statistics, in ascending size-class order.
    pub fn get_pool_stats(&self) -> (stats: Vec<SlabPoolStats>)
        requires
            alloc_wf(self@),
        ensures
            stats@.len() == self@.pools.len(),
            forall|i: int|
                0 <= i < stats@.len() ==> stats@[i] == (spec_pool_stats(
                    #[trigger] self@.pools[i],
                )),
    {
        let n: usize = self.pools.len();
        let mut stats: Vec<SlabPoolStats> = Vec::new();
        for i in 0..n
            invariant
                alloc_wf(self@),
                n == self@.pools.len(),
                stats@.len() == i,
                forall|k: int|
                    0 <= k < i ==> stats@[k] == (spec_pool_stats(#[trigger] self@.pools[k])),
        {
            proof {
                assert(self.pools[i as int]@ == self@.pools[i as int]);
                assert(pool_wf(self@.pools[i as int]));
            }
            let s = self.pools[i].get_stats();
            stats.push(s);
        }
        stats
    }

    /// Pool utilization in hundredths of a percent: `total_allocated /
    /// max_pool_size * 100`, and 0 when the ceiling is 0. Never above 10000,
    /// i.e. 100%.
    pub fn get_utilization_hundredths(&self) -> (r: u64)
        requires
            alloc_wf(self@),
        ensures
            self@.max_pool_size == 0 ==> r == 0,
            self@.max_pool_size > 0 ==> r == sum_allocated(self@.pools) * 10000
                / self@.max_pool_size as int,
            r <= 10000,
    {
        let total = self.get_total_allocated();
        if self.max_pool_size == 0 {
            0
        } else {
            let t: u128 = total as u128;
            let m: u128 = self.max_pool_size as u128;
            let q: u128 = t * 10000 / m;
            proof {
                lemma_sum_allocated_nonneg(self@.pools);
                assert((t * 10000) as int / m as int <= 10000) by (nonlinear_arith)
                    requires
                        0 <= t <= m,
                        m > 0,
                ;
            }
            q as u64
        }
    }

    /// The configured global capacity ceiling in bytes.
    pub fn get_max_pool_size(&self) -> (r: usize)
        ensures
            r == self@.max_pool_size,
    {
        self.max_pool_size
    }

    /// Whether the allocation-id space is used up. `allocate` requires a
    /// fresh id to be available; with 64-bit ids this never happens in
    /// practice, but a caller outside the proofs can check it cheaply.
    pub fn id_space_exhausted(&self) -> (r: bool)
        ensures
            r == (self@.next_allocation_id == u64::MAX),
    {
        self.next_allocation_id == u64::MAX
    }

    /// Allocate a buffer of at least `requested_size` bytes.
    ///
    /// Picks the smallest configured size class that fits, then serves a
    /// free slab from that class's pool, growing the pool only within the
    /// global ceiling; the global total is read and the pool grown under the
    /// same exclusive access, so concurrent calls cannot jointly overshoot.
    /// On success returns `(allocation id, size class, slab id)` under a
    /// freshly minted allocation id. Fails with `SizeTooLarge` when no class
    /// fits and with `PoolExhausted` when growth would pass the ceiling.
    pub fn allocate(&mut self, requested_size: usize) -> (result: Result<
        (u64, usize, usize),
        AllocatorError,
    >)
        requires
            alloc_wf(old(self)@),
            old(self)@.next_allocation_id < u64::MAX,
        ensures
            alloc_wf(final(self)@),
            ({
                let pre = old(self)@;
                let post = final(self)@;
                let fi = fit_index(pre.pools, requested_size);
                &&& (fi == pre.pools.len() ==> result == Err::<(u64, usize, usize), AllocatorError>(
                    AllocatorError::SizeTooLarge,
                ) && post == pre)
                &&& (fi < pre.pools.len() ==> {
                    let pool = pre.pools[fi];
                    let cls = pool.size;
                    &&& (pool.free.len() > 0 ==> {
                        let sid = pool.free[0];
                        &&& result == Ok::<(u64, usize, usize), AllocatorError>(
                            (pre.next_allocation_id, cls, sid),
                        )
                        &&& post.pools == pre.pools.update(
                            fi,
                            (PoolModel {
                                free: pool.free.subrange(1, pool.free.len() as int),
                                slabs: pool.slabs.update(
                                    sid as int,
                                    (SlabModel { in_use: true, ..pool.slabs[sid as int] }),
                                ),
                                ..pool
                            }),
                        )
                        &&& sum_allocated(post.pools) == sum_allocated(pre.pools)
                    })
                    &&& (pool.free.len() == 0 && sum_allocated(pre.pools) + cls
                        <= pre.max_pool_size ==> {
                        let sid = pool.slabs.len() as usize;
                        &&& result == Ok::<(u64, usize, usize), AllocatorError>(
                            (pre.next_allocation_id, cls, sid),
                        )
                        &&& post.pools == pre.pools.update(
                            fi,
                            (PoolModel {
                                slabs: pool.slabs.push(
                                    (SlabModel {
                                        id: sid,
                                        size: cls,
                                        data: Seq::new(cls as nat, |i: int| 0u8),
                                        in_use: true,
                                    }),
                                ),
                                total_allocated: (pool.total_allocated + cls) as usize,
                                ..pool
                            }),
                        )
                        &&& sum_allocated(post.pools) == sum_allocated(pre.pools) + cls
                    })
                    &&& (result is Ok ==> {
                        &&& post.allocations == pre.allocations.insert(
                            pre.next_allocation_id,
                            (cls, result->Ok_0.2),
                        )
                        &&& post.next_allocation_id == pre.next_allocation_id + 1
                        &&& post.max_pool_size == pre.max_pool_size
                    })
                    &&& (pool.free.len() == 0 && sum_allocated(pre.pools) + cls
                        > pre.max_pool_size ==> result == Err::<(u64, usize, usize), AllocatorError>(
                        AllocatorError::PoolExhausted,
                    ) && post == pre)
                })
            }),
    {
        let ghost pre = self@;
        let n: usize = self.pools.len();
        // Select the smallest size class that fits the request.
        let mut fit: Option<usize> = None;
        for i in 0..n
            invariant
                n == self@.pools.len(),
                match fit {
                    Option::None => forall|j: int|
                        0 <= j < i ==> (#[trigger] self@.pools[j]).size < requested_size,
                    Option::Some(ci) => ci < i && self@.pools[ci as int].size >= requested_size
                        && forall|j: int|
                        0 <= j < ci ==> (#[trigger] self@.pools[j]).size < requested_size,
                },
        {
            if fit.is_none() && self.pools[i].size >= requested_size {
                fit = Some(i);
            }
        }
        let ci: usize = match fit {
            Option::Some(ci) => ci,
            Option::None => {
                proof {
                    lemma_fit_index_char(pre.pools, requested_size, pre.pools.len() as int);
                }
                return Err(AllocatorError::SizeTooLarge);
            },
        };
        proof {
            lemma_fit_index_char(pre.pools, requested_size, ci as int);
        }
        // One consistent snapshot of the global total for the ceiling check.
        let current_total: usize = self.get_total_allocated();
        let mut pool = self.pools.remove(ci);
        let ghost pre_pool = pool@;
        proof {
            assert(pre_pool == pre.pools[ci as int]);
            lemma_sum_allocated_element(pre.pools, ci as int);
        }
        let cls: usize = pool.size;
        let pre_slab_count: usize = pool.all_slabs.len();
        let r = pool.allocate(self.max_pool_size, current_total);
        self.pools.insert(ci, pool);
        proof {
            assert(self.pools@.map_values(|p: SlabPool| p@) =~= pre.pools.update(
                ci as int,
                self.pools@[ci as int]@,
            ));
            lemma_sum_allocated_update(pre.pools, ci as int, self.pools@[ci as int]@);
        }
        match r {
            Option::None => {
                proof {
                    assert(self@ =~= pre);
                }
                Err(AllocatorError::PoolExhausted)
            },
            Option::Some(sid) => {
                let id: u64 = self.next_allocation_id;
                self.next_allocation_id = id + 1;
                self.allocations.insert(id, (cls, sid));
                proof {
                    let post = self@;
                    let new_pool = post.pools[ci as int];
                    // The slab handed out was not in use before the call, so
                    // no recorded allocation can already name it.
                    if pre_pool.free.len() > 0 {
                        assert(sid == pre_pool.free[0]);
                        assert(!pre_pool.slabs[sid as int].in_use);
                    } else {
                        assert(pre_pool.slabs.len() == pre_slab_count);
                        assert(sid == pre_pool.slabs.len());
                    }
                    assert(!(sid < pre_pool.slabs.len() && pre_pool.slabs[sid as int].in_use));
                    assert forall|other: u64|
                        #[trigger] post.allocations.contains_key(other) implies alloc_entry_live(
                        post.pools,
                        post.allocations[other],
                    ) && other < post.next_allocation_id by {
                        if other == id {
                            assert(post.pools[ci as int].size == cls);
                        } else {
                            assert(pre.allocations.contains_key(other));
                            let e = pre.allocations[other];
                            let pi = choose|pi: int|
                                0 <= pi < pre.pools.len() && (#[trigger] pre.pools[pi]).size == e.0
                                    && e.1 < pre.pools[pi].slabs.len()
                                    && pre.pools[pi].slabs[e.1 as int].in_use;
                            assert(post.pools[pi].size == e.0 && e.1 < post.pools[pi].slabs.len()
                                && post.pools[pi].slabs[e.1 as int].in_use);
                        }
                    }
                    assert forall|id1: u64, id2: u64|
                        #![trigger post.allocations[id1], post.allocations[id2]]
                        post.allocations.contains_key(id1) && post.allocations.contains_key(id2)
                            && id1 != id2 implies post.allocations[id1]
                        != post.allocations[id2] by {
                        if id1 == id || id2 == id {
                            let other = if id1 == id { id2 } else { id1 };
                            assert(pre.allocations.contains_key(other));
                            let e = pre.allocations[other];
                            if e == (cls, sid) {
                                let pi = choose|pi: int|
                                    0 <= pi < pre.pools.len() && (#[trigger] pre.pools[pi]).size
                                        == e.0 && e.1 < pre.pools[pi].slabs.len()
                                        && pre.pools[pi].slabs[e.1 as int].in_use;
                                // Distinct pools have distinct sizes, so the
                                // entry's pool is the chosen pool, and its
                                // slab was in use while `sid` was not.
                                assert(pi == ci as int);
                                assert(false);
                            }
                        } else {
                            assert(pre.allocations.contains_key(id1));
                            assert(pre.allocations.contains_key(id2));
                        }
                    }
                }
                Ok((id, cls, sid))
            },
        }
    }

    /// Release the allocation named by `allocation_id` and return the size
    /// class freed.
    ///
    /// Fails with `NotFound` on an unknown or already-released id (the
    /// double-free guard), leaving the allocator unchanged. On success the
    /// owning pool zeroes the slab's bytes and appends it to its free list;
    /// allocated bytes stay as they are, only in-use bytes drop. The
    /// contract shows `InternalInconsistency` is never returned: the index
    /// invariant guarantees the pool can release the slab.
    pub fn deallocate(&mut self, allocation_id: u64) -> (result: Result<usize, AllocatorError>)
        requires
            alloc_wf(old(self)@),
        ensures
            alloc_wf(final(self)@),
            ({
                let pre = old(self)@;
                let post = final(self)@;
                &&& (!pre.allocations.contains_key(allocation_id) ==> result == Err::<
                    usize,
                    AllocatorError,
                >(AllocatorError::NotFound) && post == pre)
                &&& (pre.allocations.contains_key(allocation_id) ==> {
                    let e = pre.allocations[allocation_id];
                    let fi = fit_index(pre.pools, e.0);
                    &&& result == Ok::<usize, AllocatorError>(e.0)
                    &&& fi < pre.pools.len() && pre.pools[fi].size == e.0
                    &&& post.pools == pre.pools.update(
                        fi,
                        (PoolModel {
                            free: pre.pools[fi].free.push(e.1),
                            slabs: pre.pools[fi].slabs.update(
                                e.1 as int,
                                (SlabModel {
                                    in_use: false,
                                    data: Seq::new(pre.pools[fi].size as nat, |i: int| 0u8),
                                    ..pre.pools[fi].slabs[e.1 as int]
                                }),
                            ),
                            ..pre.pools[fi]
                        }),
                    )
                    &&& all_zero(post.pools[fi].slabs[e.1 as int].data)
                    &&& sum_allocated(post.pools) == sum_allocated(pre.pools)
                    &&& post.allocations == pre.allocations.remove(allocation_id)
                    &&& post.next_allocation_id == pre.next_allocation_id
                    &&& post.max_pool_size == pre.max_pool_size
                })
            }),
    {
        let ghost pre = self@;
        match self.allocations.remove(&allocation_id) {
            Option::None => {
                proof {
                    assert(pre.allocations.remove(allocation_id) =~= pre.allocations);
                    assert(self@ =~= pre);
                }
                Err(AllocatorError::NotFound)
            },
            Option::Some((cls, sid)) => {
                let ghost e = pre.allocations[allocation_id];
                let ghost pi0 = choose|pi: int|
                    0 <= pi < pre.pools.len() && (#[trigger] pre.pools[pi]).size == e.0 && e.1
                        < pre.pools[pi].slabs.len() && pre.pools[pi].slabs[e.1 as int].in_use;
                proof {
                    assert(pre.allocations.contains_key(allocation_id));
                    assert(alloc_entry_live(pre.pools, e));
                    assert((cls, sid) == e);
                }
                // Find the owning pool by its size class.
                let n: usize = self.pools.len();
                let mut found: Option<usize> = None;
                for j in 0..n
                    invariant
                        n == self@.pools.len(),
                        self@.pools == pre.pools,
                        match found {
                            Option::None => forall|t: int|
                                0 <= t < j ==> (#[trigger] pre.pools[t]).size != cls,
                            Option::Some(p) => p < j && pre.pools[p as int].size == cls,
                        },
                {
                    if found.is_none() && self.pools[j].size == cls {
                        found = Some(j);
                    }
                }
                let pi: usize = match found {
                    Option::Some(p) => p,
                    Option::None => {
                        proof {
                            assert(pre.pools[pi0].size == e.0);
                            assert(false);
                        }
                        0
                    },
                };
                proof {
                    // Size classes ascend strictly, so the pool holding this
                    // class is unique and the scan found the live entry's pool.
                    if pi as int != pi0 {
                        if (pi as int) < pi0 {
                            assert(pre.pools[pi as int].size < pre.pools[pi0].size);
                        } else {
                            assert(pre.pools[pi0].size < pre.pools[pi as int].size);
                        }
                        assert(false);
                    }
                    assert forall|t: int| 0 <= t < pi implies (#[trigger] pre.pools[t]).size
                        < cls by {
                        assert(pre.pools[t].size < pre.pools[pi as int].size);
                    }
                    lemma_fit_index_char(pre.pools, cls, pi as int);
                }
                let mut pool = self.pools.remove(pi);
                let ghost pre_pool = pool@;
                let ok = pool.deallocate(sid);
                self.pools.insert(pi, pool);
                proof {
                    assert(self.pools@.map_values(|p: SlabPool| p@) =~= pre.pools.update(
                        pi as int,
                        self.pools@[pi as int]@,
                    ));
                    lemma_sum_allocated_update(pre.pools, pi as int, self.pools@[pi as int]@);
                }
                if ok {
                    proof {
                        let post = self@;
                        assert(post.pools[pi as int] =~= (PoolModel {
                            free: pre_pool.free.push(sid),
                            slabs: pre_pool.slabs.update(
                                sid as int,
                                (SlabModel {
                                    in_use: false,
                                    data: Seq::new(pre_pool.size as nat, |i: int| 0u8),
                                    ..pre_pool.slabs[sid as int]
                                }),
                            ),
                            ..pre_pool
                        }));
                        assert forall|other: u64|
                            #[trigger] post.allocations.contains_key(other) implies alloc_entry_live(
                            post.pools,
                            post.allocations[other],
                        ) && other < post.next_allocation_id by {
                            assert(pre.allocations.contains_key(other));
                            let oe = pre.allocations[other];
                            let pj = choose|pj: int|
                                0 <= pj < pre.pools.len() && (#[trigger] pre.pools[pj]).size
                                    == oe.0 && oe.1 < pre.pools[pj].slabs.len()
                                    && pre.pools[pj].slabs[oe.1 as int].in_use;
                            if pj == pi as int {
                                // Another id in the same pool names another
                                // slab: no two entries share a slab.
                                assert(oe != e);
                                assert(oe.1 != sid);
                            }
                            assert(post.pools[pj].size == oe.0 && oe.1
                                < post.pools[pj].slabs.len()
                                && post.pools[pj].slabs[oe.1 as int].in_use);
                        }
                        assert forall|id1: u64, id2: u64|
                            #![trigger post.allocations[id1], post.allocations[id2]]
                            post.allocations.contains_key(id1) && post.allocations.contains_key(
                                id2,
                            ) && id1 != id2 implies post.allocations[id1]
                            != post.allocations[id2] by {
                            assert(pre.allocations.contains_key(id1));
                            assert(pre.allocations.contains_key(id2));
                        }
                    }
                    Ok(cls)
                } else {
                    proof {
                        // Unreachable: the entry named a slab the pool holds
                        // in use, so the pool's release cannot have failed.
                        assert(sid < pre_pool.slabs.len() && pre_pool.slabs[sid as int].in_use);
                        assert(false);
                    }
                    Err(AllocatorError::InternalInconsistency)
                }
            },
        }
    }
}

/// The global ceiling holds in every reachable state: `new` establishes
/// well-formedness, `allocate` and `deallocate` preserve it, and in any
/// well-formed state the bytes allocated across all pools — for any
/// interleaving of calls — never exceed `max_pool_size`.
pub proof fn lemma_global_ceiling(a: AllocatorModel)
    requires
        alloc_wf(a),
    ensures
        sum_allocated(a.pools) <= a.max_pool_size,
{
}

/// Double free: a successful `deallocate` leaves the index as
/// `remove(id)`, so the id is no longer recorded; by `deallocate`'s
/// contract a second call with the same id then returns `NotFound` and
/// leaves the allocator — its free lists included — unchanged.
pub proof fn lemma_double_free(pre: AllocatorModel, mid: AllocatorModel, id: u64)
    requires
        pre.allocations.contains_key(id),
        mid.allocations == pre.allocations.remove(id),
    ensures
        !mid.allocations.contains_key(id),
{
}

/// Stats are a function of the allocator's state alone: any two readings
/// that satisfy the stats getters' contracts against the same state agree,
/// so reading stats twice with no intervening allocate or deallocate yields
/// identical results.
pub proof fn lemma_stats_idempotent(
    a: AllocatorModel,
    total1: usize,
    total2: usize,
    in_use1: usize,
    in_use2: usize,
    count1: usize,
    count2: usize,
    stats1: Seq<SlabPoolStats>,
    stats2: Seq<SlabPoolStats>,
)
    requires
        total1 == sum_allocated(a.pools),
        total2 == sum_allocated(a.pools),
        in_use1 == sum_in_use(a.pools),
        in_use2 == sum_in_use(a.pools),
        count1 == a.allocations.len(),
        count2 == a.allocations.len(),
        stats1.len() == a.pools.len(),
        forall|i: int| 0 <= i < stats1.len() ==> stats1[i] == (spec_pool_stats(#[trigger] a.pools[i])),
        stats2.len() == a.pools.len(),
        forall|i: int| 0 <= i < stats2.len() ==> stats2[i] == (spec_pool_stats(#[trigger] a.pools[i])),
    ensures
        total1 == total2,
        in_use1 == in_use2,
        count1 == count2,
        stats1 == stats2,
{
    assert forall|i: int| 0 <= i < stats1.len() implies stats1[i] == stats2[i] by {
        assert(stats1[i] == (spec_pool_stats(a.pools[i])));
        assert(stats2[i] == (spec_pool_stats(a.pools[i])));
    }
    assert(stats1 =~= stats2);
}

} // verus!
