//! The ways in which the tree refuses a request.

use vstd::prelude::*;

verus! {

/// Why the tree refused a request.
#[derive(Debug, PartialEq, Eq, Clone, Copy)]
pub enum MerkleError {
    /// The number of leaves asked for is zero or not a power of two.
    InvalidCapacity,
    /// The leaf index is not below the number of leaves.
    IndexOutOfRange,
}

} // verus!
