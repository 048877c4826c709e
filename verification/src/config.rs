//! The service's configuration: network settings for the serving layer and
//! the memory settings the allocator is built from. Loading these from the
//! environment is the serving layer's business; validating the memory
//! settings is verified here.

use vstd::prelude::*;

use crate::allocator::{
    lemma_prewarm_total_nonneg, lemma_prewarm_total_prefix_le, lemma_prewarm_total_take_step,
    prewarm_total, strictly_ascending,
};

verus! {

/// Network settings of the serving layer.
#[derive(Debug, Clone)]
pub struct ServerConfig {
    pub host: String,
    pub port: u16,
}

/// Memory settings: the size classes in bytes (strictly ascending,
/// deduplicated), the global capacity ceiling, and the number of slabs to
/// pre-warm per size class at startup.
#[derive(Debug, Clone)]
pub struct MemoryConfig {
    pub slab_sizes: Vec<usize>,
    pub max_pool_size: usize,
    pub initial_slabs_per_size: usize,
}

/// The service's configuration.
#[derive(Debug, Clone)]
pub struct Config {
    pub server: ServerConfig,
    pub memory: MemoryConfig,
}

pub proof fn lemma_adjacent_ascending_step(sizes: Seq<usize>, i: int, j: int)
    requires
        forall|k: int| 0 < k < sizes.len() ==> (#[trigger] sizes[k]) > sizes[k - 1],
        0 <= i < j < sizes.len(),
    ensures
        sizes[i] < sizes[j],
    decreases j - i,
{
    if i + 1 < j {
        lemma_adjacent_ascending_step(sizes, i, j - 1);
    }
    assert(sizes[j] > sizes[j - 1]);
}

impl MemoryConfig {
    /// Whether these settings admit an allocator: the size classes ascend
    /// strictly and pre-warming them all stays within the ceiling — exactly
    /// what `SlabAllocator::new` requires of its caller.
    pub fn validate(&self) -> (r: bool)
        ensures
            r == (strictly_ascending(self.slab_sizes@) && prewarm_total(
                self.slab_sizes@,
                self.initial_slabs_per_size,
            ) <= self.max_pool_size),
    {
        let n: usize = self.slab_sizes.len();
        for i in 0..n
            invariant
                n == self.slab_sizes@.len(),
                forall|k: int|
                    0 < k < i ==> (#[trigger] self.slab_sizes@[k]) > self.slab_sizes@[k - 1],
        {
            if i > 0 && self.slab_sizes[i - 1] >= self.slab_sizes[i] {
                proof {
                    assert(!strictly_ascending(self.slab_sizes@));
                }
                return false;
            }
        }
        proof {
            assert forall|i: int, j: int| 0 <= i < j < self.slab_sizes@.len() implies (
            #[trigger] self.slab_sizes@[i]) < (#[trigger] self.slab_sizes@[j]) by {
                lemma_adjacent_ascending_step(self.slab_sizes@, i, j);
            }
        }
        let count: usize = self.initial_slabs_per_size;
        let mut acc: usize = 0;
        for i in 0..n
            invariant
                n == self.slab_sizes@.len(),
                count == self.initial_slabs_per_size,
                acc == prewarm_total(self.slab_sizes@.take(i as int), count),
                acc <= self.max_pool_size,
        {
            let ghost sizes = self.slab_sizes@;
            proof {
                lemma_prewarm_total_take_step(sizes, count, i as int);
            }
            let cost: usize = match self.slab_sizes[i].checked_mul(count) {
                Some(c) => c,
                None => {
                    proof {
                        // This class's pre-warm cost alone overflows a usize,
                        // so the total certainly exceeds the ceiling.
                        lemma_prewarm_total_nonneg(sizes.take(i as int), count);
                        lemma_prewarm_total_prefix_le(sizes, count, i as int + 1);
                    }
                    return false;
                },
            };
            let next: usize = match acc.checked_add(cost) {
                Some(a) => a,
                None => {
                    proof {
                        lemma_prewarm_total_prefix_le(sizes, count, i as int + 1);
                    }
                    return false;
                },
            };
            if next > self.max_pool_size {
                proof {
                    lemma_prewarm_total_prefix_le(sizes, count, i as int + 1);
                }
                return false;
            }
            acc = next;
        }
        proof {
            assert(self.slab_sizes@.take(n as int) =~= self.slab_sizes@);
        }
        true
    }
}

} // verus!
