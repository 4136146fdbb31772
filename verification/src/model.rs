//! The tree as mathematics: a digest is a sequence of bytes, the storage is a
//! sequence of digests indexed by position, and the hasher is a function.

use crate::hasher::{Digest, HashFn};
use crate::membership::Location;
use crate::node_index::{is_left, parent, sibling};
use vstd::prelude::*;

verus! {

/// The bytes of each of `items`.
pub open spec fn bytes_of(items: Seq<&[u8]>) -> Seq<Seq<u8>> {
    items.map_values(|item: &[u8]| item@)
}

/// The digest that a slot holds until it is first written.
pub open spec fn placeholder() -> Digest {
    seq![0u8]
}

/// The storage of a new tree of `leaf_count` leaves: `2 * leaf_count` slots,
/// each holding the placeholder.
pub open spec fn blank(leaf_count: nat) -> Seq<Digest> {
    Seq::new(2 * leaf_count, |p: int| placeholder())
}

/// A storage of `2 * n` slots for some `n >= 1`.
pub open spec fn well_shaped(nodes: Seq<Digest>) -> bool {
    nodes.len() >= 2 && nodes.len() % 2 == 0
}

/// The number of leaves of a tree with storage `nodes`.
pub open spec fn leaf_count_of(nodes: Seq<Digest>) -> int {
    nodes.len() as int / 2
}

/// Position `a` is `p` itself or one of its ancestors.
pub open spec fn on_path(a: int, p: int) -> bool
    decreases p,
{
    a == p || (p > 1 && on_path(a, parent(p)))
}

/// Position `a` is an ancestor of `p`.
pub open spec fn is_ancestor(a: int, p: int) -> bool {
    p > 1 && on_path(a, parent(p))
}

/// The digest that the node at position `p` gets from its two children:
/// the hash of the left child's digest followed by the right child's.
pub open spec fn joined(f: HashFn, nodes: Seq<Digest>, p: int) -> Digest {
    f(nodes[2 * p] + nodes[2 * p + 1])
}

/// Every inner node of `nodes` holds the hash of its two children's digests.
pub open spec fn is_consistent(f: HashFn, nodes: Seq<Digest>) -> bool {
    forall|p: int| 1 <= p < leaf_count_of(nodes) ==> #[trigger] nodes[p] == joined(f, nodes, p)
}

/// `nodes` after every ancestor of position `p` has been recomputed from its
/// children, from the parent of `p` up to the root.
pub open spec fn rehashed(f: HashFn, nodes: Seq<Digest>, p: int) -> Seq<Digest>
    decreases p,
{
    if p <= 1 {
        nodes
    } else {
        rehashed(f, nodes.update(parent(p), joined(f, nodes, parent(p))), parent(p))
    }
}

/// `nodes` after `item` has been assigned to leaf number `k`: the leaf holds
/// the digest of `item`, and its ancestors have been recomputed.
pub open spec fn assigned(f: HashFn, nodes: Seq<Digest>, k: int, item: Seq<u8>) -> Seq<Digest> {
    let leaf = leaf_count_of(nodes) + k;
    rehashed(f, nodes.update(leaf, f(item)), leaf)
}

/// `nodes` after the leaves named by `order` have been assigned in turn,
/// leaf `order[i]` getting `items[order[i]]`.
pub open spec fn assigned_in_order(
    f: HashFn,
    nodes: Seq<Digest>,
    items: Seq<Seq<u8>>,
    order: Seq<int>,
) -> Seq<Digest>
    decreases order.len(),
{
    if order.len() == 0 {
        nodes
    } else {
        assigned(
            f,
            assigned_in_order(f, nodes, items, order.drop_last()),
            order.last(),
            items[order.last()],
        )
    }
}

/// The leaves of a tree of `leaf_count` leaves, each once, from the first to
/// the last.
pub open spec fn ascending(leaf_count: nat) -> Seq<int> {
    Seq::new(leaf_count, |k: int| k)
}

/// The digest that commits to the subtree under position `p` of a tree whose
/// leaves hold `leaves`: a leaf's own digest, or the hash of the two children's
/// subtree digests.
pub open spec fn subtree_digest(f: HashFn, leaves: Seq<Digest>, p: int) -> Digest
    decreases 2 * leaves.len() - p,
{
    if p < 1 || p >= 2 * leaves.len() {
        placeholder()
    } else if p >= leaves.len() {
        leaves[p - leaves.len()]
    } else {
        f(subtree_digest(f, leaves, 2 * p) + subtree_digest(f, leaves, 2 * p + 1))
    }
}

/// The root digest that commits to the leaf digests `leaves`.
pub open spec fn merkle_root(f: HashFn, leaves: Seq<Digest>) -> Digest {
    subtree_digest(f, leaves, 1)
}

/// The storage of the tree that commits to `items`: slot 0 is unused, and
/// every other position holds the digest of the subtree under it.
pub open spec fn committed(f: HashFn, items: Seq<Seq<u8>>) -> Seq<Digest> {
    Seq::new(
        2 * items.len(),
        |p: int|
            if p == 0 {
                placeholder()
            } else {
                subtree_digest(f, items.map_values(f), p)
            },
    )
}

/// The side of the sibling of the node at position `p`.
pub open spec fn sibling_side(p: int) -> Location {
    if is_left(p) {
        Location::Right
    } else {
        Location::Left
    }
}

/// The steps of the proof for the node at position `p`: for `p` and each of
/// its ancestors below the root, the digest of its sibling and the sibling's
/// side.
pub open spec fn path_steps(nodes: Seq<Digest>, p: int) -> Seq<(Digest, Location)>
    decreases p,
{
    if p <= 1 {
        Seq::empty()
    } else {
        seq![(nodes[sibling(p)], sibling_side(p))] + path_steps(nodes, parent(p))
    }
}

/// The digest of a parent, from the digest `candidate` of one child and a
/// proof step that holds the other child's digest and side.
pub open spec fn stepped(f: HashFn, candidate: Digest, step: (Digest, Location)) -> Digest {
    match step.1 {
        Location::Right => f(candidate + step.0),
        Location::Left => f(step.0 + candidate),
    }
}

/// The digest reached from `candidate` by taking `steps` in order.
pub open spec fn replayed(f: HashFn, steps: Seq<(Digest, Location)>, candidate: Digest) -> Digest
    decreases steps.len(),
{
    if steps.len() == 0 {
        candidate
    } else {
        replayed(f, steps.drop_first(), stepped(f, candidate, steps[0]))
    }
}

/// `f` maps two different byte strings to one digest.
pub open spec fn has_collision(f: HashFn) -> bool {
    exists|x: Seq<u8>, y: Seq<u8>| x != y && #[trigger] f(x) == #[trigger] f(y)
}

} // verus!
