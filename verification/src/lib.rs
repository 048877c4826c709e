//! A verified slab allocator: fixed-size byte blocks ("slabs") grouped into
//! pools by size class and served under a global capacity ceiling.
//!
//! `slab` holds the blocks and the per-size-class pools with their free
//! lists; `allocator` routes requests to the smallest fitting class,
//! enforces the ceiling jointly across pools and keeps the allocation
//! index; `config` validates the settings an allocator is built from. The
//! proofs pin down the round-up policy, the ceiling, reuse before growth,
//! zeroing on release and the double-free guard.

pub mod allocator;
pub mod config;
pub mod models;
pub mod slab;

pub use models::AllocateRequest;
