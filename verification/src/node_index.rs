//! Positions in a complete binary tree that is stored as a flat array.
//!
//! Position 1 is the root, and the children of position `p` are `2 * p` and
//! `2 * p + 1`. A tree of `n` leaves has its leaves at positions `n` to
//! `2 * n - 1`.

use vstd::prelude::*;

verus! {

/// The position of the parent of the node at position `p`.
pub open spec fn parent(p: int) -> int {
    p / 2
}

/// The position of the other child of the parent of the node at position `p`.
pub open spec fn sibling(p: int) -> int {
    if p % 2 == 0 {
        p + 1
    } else {
        p - 1
    }
}

/// Whether the node at position `p` is the left child of its parent.
pub open spec fn is_left(p: int) -> bool {
    p % 2 == 0
}

/// The position of leaf number `k` in a tree of `leaf_count` leaves.
pub open spec fn leaf_position(k: int, leaf_count: int) -> int {
    k + leaf_count
}

/// A position in the flat array that stores the tree.
#[derive(Copy, Clone)]
pub struct NodeIndex(usize);

impl View for NodeIndex {
    type V = nat;

    closed spec fn view(&self) -> nat {
        self.0 as nat
    }
}

impl NodeIndex {
    /// The position `index`.
    pub fn new(index: usize) -> (r: Self)
        ensures
            r@ == index,
    {
        Self(index)
    }

    /// Whether this is the position of the root.
    pub fn is_root(&self) -> (r: bool)
        ensures
            r == (self@ == 1),
    {
        self.0 == 1
    }

    /// The position as a plain integer.
    pub fn inner(&self) -> (r: usize)
        ensures
            r == self@,
    {
        self.0
    }
}

} // verus!
