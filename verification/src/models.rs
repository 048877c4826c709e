//! Request payloads exchanged with the serving layer.

use vstd::prelude::*;

verus! {

/// A client's request for a buffer of `size_bytes` bytes.
#[derive(Debug, Clone, PartialEq, Eq, Structural)]
pub struct AllocateRequest {
    pub size_bytes: usize,
}

} // verus!
