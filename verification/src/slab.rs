//! Slabs and per-size-class slab pools.
//!
//! A `Slab` is a fixed-size byte block with an identity and an in-use flag.
//! A `SlabPool` owns every slab of one size class: a FIFO free list of slab
//! ids and a registry holding the slabs themselves. A slab's id is its index
//! in the registry, so ids are unique for the life of the pool and slabs are
//! recycled, never destroyed.

use vstd::prelude::*;

verus! {

/// Mathematical image of a `Slab`: its id, capacity, contents and state.
#[verifier::ext_equal]
pub ghost struct SlabModel {
    pub id: usize,
    pub size: usize,
    pub data: Seq<u8>,
    pub in_use: bool,
}

/// Every byte of `data` is zero.
pub open spec fn all_zero(data: Seq<u8>) -> bool {
    forall|i: int| 0 <= i < data.len() ==> data[i] == 0
}

/// A fixed-size block of memory. `data.len() == size` holds for its whole
/// life; the contents are zeroed whenever `in_use` falls back to `false`.
#[derive(Debug)]
pub struct Slab {
    pub id: usize,
    pub size: usize,
    pub data: Vec<u8>,
    pub in_use: bool,
}

impl View for Slab {
    type V = SlabModel;

    open spec fn view(&self) -> SlabModel {
        SlabModel { id: self.id, size: self.size, data: self.data@, in_use: self.in_use }
    }
}

impl Slab {
    /// A fresh slab: zero-filled, not in use.
    pub fn new(id: usize, size: usize) -> (s: Slab)
        ensures
            s@.id == id,
            s@.size == size,
            s@.data.len() == size,
            all_zero(s@.data),
            !s@.in_use,
    {
        Slab { id, size, data: vec![0u8; size], in_use: false }
    }
}

/// Mathematical image of a `SlabPool`.
#[verifier::ext_equal]
pub ghost struct PoolModel {
    pub size: usize,
    pub free: Seq<usize>,
    pub slabs: Seq<SlabModel>,
    pub total_allocated: usize,
}

/// Well-formedness of a pool:
/// - every free-list entry names a registry slab that is not in use;
/// - the free list holds no id twice;
/// - slab ids equal their registry index, every slab has the pool's size and
///   a full-length byte buffer, and a slab outside the free list is in use
///   while a slab on the free list is zero-filled;
/// - the allocated-byte counter equals `size` times the number of slabs.
pub open spec fn pool_wf(p: PoolModel) -> bool {
    &&& forall|i: int|
        0 <= i < p.free.len() ==> (#[trigger] p.free[i]) < p.slabs.len()
            && !p.slabs[p.free[i] as int].in_use
    &&& forall|i: int, j: int| 0 <= i < j < p.free.len() ==> p.free[i] != p.free[j]
    &&& forall|k: int|
        0 <= k < p.slabs.len() ==> {
            let s = #[trigger] p.slabs[k];
            &&& s.id == k
            &&& s.size == p.size
            &&& s.data.len() == p.size
            &&& (!s.in_use ==> p.free.contains(k as usize) && all_zero(s.data))
        }
    &&& p.total_allocated == p.size * p.slabs.len()
}

/// Statistics of one pool, derived by scanning the registry.
#[derive(Debug, Clone, PartialEq, Eq, Structural)]
pub struct SlabPoolStats {
    pub size: usize,
    pub total_slabs: usize,
    pub in_use_slabs: usize,
    pub free_slabs: usize,
    pub total_allocated_bytes: usize,
    pub in_use_bytes: usize,
}

/// How many slabs of `slabs` are in use.
pub open spec fn in_use_count(slabs: Seq<SlabModel>) -> int
    decreases slabs.len(),
{
    if slabs.len() == 0 {
        0
    } else {
        in_use_count(slabs.drop_last()) + if slabs.last().in_use {
            1int
        } else {
            0int
        }
    }
}

pub proof fn lemma_in_use_count_bounds(slabs: Seq<SlabModel>)
    ensures
        0 <= in_use_count(slabs) <= slabs.len(),
    decreases slabs.len(),
{
    if slabs.len() > 0 {
        lemma_in_use_count_bounds(slabs.drop_last());
    }
}

pub proof fn lemma_in_use_count_zero(slabs: Seq<SlabModel>)
    requires
        forall|k: int| 0 <= k < slabs.len() ==> !(#[trigger] slabs[k]).in_use,
    ensures
        in_use_count(slabs) == 0,
    decreases slabs.len(),
{
    if slabs.len() > 0 {
        lemma_in_use_count_zero(slabs.drop_last());
    }
}

/// The statistics a well-formed pool reports.
pub open spec fn spec_pool_stats(p: PoolModel) -> SlabPoolStats {
    SlabPoolStats {
        size: p.size,
        total_slabs: p.slabs.len() as usize,
        in_use_slabs: in_use_count(p.slabs) as usize,
        free_slabs: p.free.len() as usize,
        total_allocated_bytes: p.total_allocated,
        in_use_bytes: (in_use_count(p.slabs) * p.size) as usize,
    }
}

/// A freed slab's bytes are zero before any later allocate can hand the
/// slab out again: in a well-formed pool, every slab on the free list is
/// zero-filled, and `deallocate` re-establishes well-formedness the moment
/// it returns.
pub proof fn lemma_free_slabs_zeroed(p: PoolModel)
    requires
        pool_wf(p),
    ensures
        forall|i: int|
            0 <= i < p.free.len() ==> all_zero((#[trigger] p.slabs[p.free[i] as int]).data),
{
    assert forall|i: int| 0 <= i < p.free.len() implies all_zero(
        (#[trigger] p.slabs[p.free[i] as int]).data,
    ) by {
        assert(p.free[i] < p.slabs.len() && !p.slabs[p.free[i] as int].in_use);
    }
}

/// All slabs of one size class: a FIFO free list of slab ids and the
/// registry owning the slabs. Slab ids are registry indices.
#[derive(Debug)]
pub struct SlabPool {
    pub size: usize,
    pub free_slabs: Vec<usize>,
    pub all_slabs: Vec<Slab>,
    pub total_allocated: usize,
}

impl View for SlabPool {
    type V = PoolModel;

    open spec fn view(&self) -> PoolModel {
        PoolModel {
            size: self.size,
            free: self.free_slabs@,
            slabs: self.all_slabs@.map_values(|s: Slab| s@),
            total_allocated: self.total_allocated,
        }
    }
}

impl SlabPool {
    /// A pool of `initial_count` pre-warmed free slabs of `size` bytes each.
    pub fn new(size: usize, initial_count: usize) -> (pool: SlabPool)
        requires
            size * initial_count <= usize::MAX,
        ensures
            pool_wf(pool@),
            pool@.size == size,
            pool@.slabs.len() == initial_count,
            pool@.free.len() == initial_count,
            forall|i: int| 0 <= i < initial_count ==> (#[trigger] pool@.free[i]) == i,
            pool@.total_allocated == size * initial_count,
            in_use_count(pool@.slabs) == 0,
    {
        let mut pool = SlabPool {
            size,
            free_slabs: Vec::new(),
            all_slabs: Vec::new(),
            total_allocated: 0,
        };
        proof {
            assert(size * 0 == 0) by (nonlinear_arith);
        }
        for n in 0..initial_count
            invariant
                pool.size == size,
                pool_wf(pool@),
                pool@.slabs.len() == n,
                pool@.free.len() == n,
                forall|i: int| 0 <= i < n ==> (#[trigger] pool@.free[i]) == i,
                forall|k: int| 0 <= k < n ==> !(#[trigger] pool@.slabs[k]).in_use,
                pool.total_allocated == size * n,
                size * initial_count <= usize::MAX,
        {
            let ghost pre = pool@;
            proof {
                assert(size * (n + 1) == size * n + size) by (nonlinear_arith);
                assert(size * (n + 1) <= size * initial_count) by (nonlinear_arith)
                    requires
                        n + 1 <= initial_count,
                        size >= 0,
                ;
            }
            let id: usize = pool.all_slabs.len();
            let slab = Slab::new(id, size);
            pool.free_slabs.push(id);
            pool.all_slabs.push(slab);
            pool.total_allocated = pool.total_allocated + size;
            proof {
                assert(pool@.slabs =~= pre.slabs.push(slab@));
                assert(pool@.free =~= pre.free.push(id));
                assert forall|k: int|
                    0 <= k < pool@.slabs.len() && !(#[trigger] pool@.slabs[k]).in_use implies pool@.free.contains(
                    k as usize,
                ) && all_zero(pool@.slabs[k].data) by {
                    assert(pool@.free[k] == k as usize);
                }
            }
        }
        proof {
            lemma_in_use_count_zero(pool@.slabs);
        }
        pool
    }

    /// Serve a slab: reuse the head of the free list if one is free (no
    /// growth, no byte cost), else grow by one slab if `current_total +
    /// size` stays within `max_pool_size`, else report no capacity.
    ///
    /// `current_total` is the caller's consistent snapshot of the bytes
    /// allocated across all pools, taken under the same exclusive access
    /// as this call; it is at least this pool's own allocated bytes.
    pub fn allocate(&mut self, max_pool_size: usize, current_total: usize) -> (result: Option<
        usize,
    >)
        requires
            pool_wf(old(self)@),
            current_total >= old(self)@.total_allocated,
        ensures
            pool_wf(final(self)@),
            final(self)@.size == old(self)@.size,
            old(self)@.free.len() > 0 ==> {
                let head = old(self)@.free[0];
                &&& result == Some(head)
                &&& !old(self)@.slabs[head as int].in_use
                &&& final(self)@.free == old(self)@.free.subrange(
                    1,
                    old(self)@.free.len() as int,
                )
                &&& final(self)@.slabs == old(self)@.slabs.update(
                    head as int,
                    (SlabModel { in_use: true, ..old(self)@.slabs[head as int] }),
                )
                &&& final(self)@.total_allocated == old(self)@.total_allocated
            },
            old(self)@.free.len() == 0 && current_total + old(self)@.size <= max_pool_size ==> {
                &&& result == Some((old(self)@.slabs.len() as usize))
                &&& final(self)@.free == old(self)@.free
                &&& final(self)@.slabs == old(self)@.slabs.push(
                    (SlabModel {
                        id: old(self)@.slabs.len() as usize,
                        size: old(self)@.size,
                        data: Seq::new(old(self)@.size as nat, |i: int| 0u8),
                        in_use: true,
                    }),
                )
                &&& final(self)@.total_allocated == old(self)@.total_allocated + old(self)@.size
            },
            old(self)@.free.len() == 0 && current_total + old(self)@.size > max_pool_size ==> {
                &&& result is None
                &&& *final(self) == *old(self)
            },
    {
        let ghost pre = self@;
        // Reuse path: oldest-freed slab first (FIFO).
        if self.free_slabs.len() > 0 {
            let id: usize = self.free_slabs.remove(0);
            proof {
                assert(pre.free[0] < pre.slabs.len() && !pre.slabs[pre.free[0] as int].in_use);
            }
            let s = &mut self.all_slabs[id];
            s.in_use = true;
            proof {
                assert(self.free_slabs@ =~= pre.free.subrange(1, pre.free.len() as int));
                assert(self.all_slabs@.map_values(|s: Slab| s@) =~= pre.slabs.update(
                    id as int,
                    (SlabModel { in_use: true, ..pre.slabs[id as int] }),
                ));
                let post = self@;
                assert forall|i: int|
                    0 <= i < post.free.len() implies (#[trigger] post.free[i]) < post.slabs.len()
                    && !post.slabs[post.free[i] as int].in_use by {
                    assert(post.free[i] == pre.free[i + 1]);
                    assert(pre.free[i + 1] != pre.free[0]);
                }
                assert forall|k: int|
                    0 <= k < post.slabs.len() && !(#[trigger] post.slabs[k]).in_use implies post.free.contains(
                    k as usize,
                ) && all_zero(post.slabs[k].data) by {
                    assert(pre.free.contains(k as usize));
                    let j = choose|j: int| 0 <= j < pre.free.len() && pre.free[j] == k as usize;
                    assert(j != 0);
                    assert(post.free[j - 1] == k as usize);
                }
            }
            return Some(id);
        }
        // Growth path, inside the global ceiling only.
        if current_total <= max_pool_size && self.size <= max_pool_size - current_total {
            let id: usize = self.all_slabs.len();
            let mut slab = Slab::new(id, self.size);
            slab.in_use = true;
            proof {
                assert(slab@.data =~= Seq::new(pre.size as nat, |i: int| 0u8));
                assert(pre.size * (pre.slabs.len() + 1) == pre.size * pre.slabs.len() + pre.size)
                    by (nonlinear_arith);
            }
            self.all_slabs.push(slab);
            self.total_allocated = self.total_allocated + self.size;
            proof {
                assert(self.all_slabs@.map_values(|s: Slab| s@) =~= pre.slabs.push(slab@));
                let post = self@;
                // The free list is empty, so by well-formedness every
                // pre-existing slab is in use; the new slab is in use too.
                assert forall|k: int|
                    0 <= k < post.slabs.len() && !(#[trigger] post.slabs[k]).in_use implies post.free.contains(
                    k as usize,
                ) && all_zero(post.slabs[k].data) by {
                    if k < pre.slabs.len() {
                        assert(post.slabs[k] == pre.slabs[k]);
                        assert(pre.free.contains(k as usize));
                    }
                }
            }
            Some(id)
        } else {
            None
        }
    }

    /// Reclaim a slab: fails on an unknown or already-free id (double-free
    /// guard); on success zeroes the slab's bytes, clears its in-use flag and
    /// appends its id to the tail of the free list.
    pub fn deallocate(&mut self, slab_id: usize) -> (result: bool)
        requires
            pool_wf(old(self)@),
        ensures
            pool_wf(final(self)@),
            final(self)@.size == old(self)@.size,
            result == (slab_id < old(self)@.slabs.len() && old(self)@.slabs[slab_id as int].in_use),
            result ==> {
                &&& final(self)@.free == old(self)@.free.push(slab_id)
                &&& final(self)@.slabs == old(self)@.slabs.update(
                    slab_id as int,
                    (SlabModel {
                        in_use: false,
                        data: Seq::new(old(self)@.size as nat, |i: int| 0u8),
                        ..old(self)@.slabs[slab_id as int]
                    }),
                )
                &&& final(self)@.total_allocated == old(self)@.total_allocated
                &&& all_zero(final(self)@.slabs[slab_id as int].data)
            },
            !result ==> *final(self) == *old(self),
    {
        let ghost pre = self@;
        if slab_id < self.all_slabs.len() {
            if self.all_slabs[slab_id].in_use {
                let sz: usize = self.all_slabs[slab_id].size;
                let zeroed: Vec<u8> = vec![0u8; sz];
                proof {
                    assert(zeroed@ =~= Seq::new(pre.size as nat, |i: int| 0u8));
                }
                let s = &mut self.all_slabs[slab_id];
                s.in_use = false;
                s.data = zeroed;
                self.free_slabs.push(slab_id);
                proof {
                    // The slab was in use, so by well-formedness it was not
                    // on the free list; the push keeps the list duplicate-free.
                    assert forall|i: int| 0 <= i < pre.free.len() implies (#[trigger] pre.free[i])
                        != slab_id by {
                        assert(!pre.slabs[pre.free[i] as int].in_use);
                    }
                    assert(self.all_slabs@.map_values(|s: Slab| s@) =~= pre.slabs.update(
                        slab_id as int,
                        (SlabModel {
                            in_use: false,
                            data: Seq::new(pre.size as nat, |i: int| 0u8),
                            ..pre.slabs[slab_id as int]
                        }),
                    ));
                    let post = self@;
                    assert forall|k: int|
                        0 <= k < post.slabs.len() && !(#[trigger] post.slabs[k]).in_use implies post.free.contains(
                        k as usize,
                    ) && all_zero(post.slabs[k].data) by {
                        if k == slab_id {
                            assert(post.free[post.free.len() - 1] == k as usize);
                        } else {
                            assert(pre.free.contains(k as usize));
                            let j = choose|j: int|
                                0 <= j < pre.free.len() && pre.free[j] == k as usize;
                            assert(post.free[j] == k as usize);
                        }
                    }
                }
                return true;
            }
        }
        false
    }

    /// The pool's statistics, derived by scanning the registry.
    pub fn get_stats(&self) -> (stats: SlabPoolStats)
        requires
            pool_wf(self@),
        ensures
            stats == (spec_pool_stats(self@)),
    {
        let n: usize = self.all_slabs.len();
        let mut in_use: usize = 0;
        for idx in 0..n
            invariant
                n == self@.slabs.len(),
                in_use == in_use_count(self@.slabs.take(idx as int)),
                in_use <= idx,
        {
            proof {
                assert(self@.slabs.take(idx as int + 1).drop_last() =~= self@.slabs.take(
                    idx as int,
                ));
            }
            if self.all_slabs[idx].in_use {
                in_use = in_use + 1;
            }
        }
        proof {
            assert(self@.slabs.take(n as int) =~= self@.slabs);
            lemma_in_use_count_bounds(self@.slabs);
            assert(in_use * self.size <= self.size * self@.slabs.len()) by (nonlinear_arith)
                requires
                    0 <= in_use <= self@.slabs.len(),
                    self.size >= 0,
            ;
        }
        SlabPoolStats {
            size: self.size,
            total_slabs: n,
            in_use_slabs: in_use,
            free_slabs: self.free_slabs.len(),
            total_allocated_bytes: self.total_allocated,
            in_use_bytes: in_use * self.size,
        }
    }
}

} // verus!
