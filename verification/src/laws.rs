//! What holds of the tree whatever the hasher and the items, proved over the
//! model: what an assignment changes, that the order of assignments does not
//! matter, that every proof leads its item to the root and no other item
//! unless the hasher collides, and how long a proof is.

use crate::hasher::{Digest, HashFn};
use crate::membership::Location;
use crate::model::{
    assigned, assigned_in_order, blank, committed, has_collision, is_ancestor, is_consistent,
    joined, leaf_count_of, merkle_root, on_path, path_steps, placeholder, rehashed, replayed,
    stepped, subtree_digest, well_shaped,
};
use crate::node_index::parent;
use vstd::arithmetic::logarithm::{lemma_log0, lemma_log_s, log};
use vstd::arithmetic::power2::is_pow2;
use vstd::prelude::*;

verus! {

/// A position on the path from `p` to the root lies between 1 and `p`.
pub proof fn lemma_on_path_bounds(a: int, p: int)
    requires
        p >= 1,
        on_path(a, p),
    ensures
        1 <= a <= p,
    decreases p,
{
    if a != p {
        lemma_on_path_bounds(a, parent(p));
    }
}

/// The parent of a position on the path from `p` to the root is on that path
/// too.
pub proof fn lemma_on_path_parent(c: int, p: int)
    requires
        p >= 1,
        c >= 2,
        on_path(c, p),
    ensures
        on_path(parent(c), p),
    decreases p,
{
    if c == p {
        assert(on_path(parent(p), parent(p)));
    } else {
        lemma_on_path_parent(c, parent(p));
    }
}

/// Recomputing the ancestors of `p` keeps the length of the storage, leaves
/// every position that is no ancestor of `p` as it was, and makes each
/// ancestor hold the hash of its two children.
pub proof fn lemma_rehashed(f: HashFn, nodes: Seq<Digest>, p: int)
    requires
        nodes.len() % 2 == 0,
        1 <= p < nodes.len(),
    ensures
        rehashed(f, nodes, p).len() == nodes.len(),
        forall|q: int|
            0 <= q < nodes.len() && !is_ancestor(q, p) ==> #[trigger] rehashed(f, nodes, p)[q]
                == nodes[q],
        forall|q: int|
            is_ancestor(q, p) ==> #[trigger] rehashed(f, nodes, p)[q] == joined(
                f,
                rehashed(f, nodes, p),
                q,
            ),
    decreases p,
{
    if p > 1 {
        let up = parent(p);
        let next = nodes.update(up, joined(f, nodes, up));
        let done = rehashed(f, nodes, p);
        assert(done == rehashed(f, next, up));
        lemma_rehashed(f, next, up);
        assert forall|q: int| 0 <= q < nodes.len() && !on_path(q, up) implies #[trigger] done[q]
            == nodes[q] by {
            if is_ancestor(q, up) {
                assert(on_path(q, up));
            }
        }
        assert forall|q: int| on_path(q, up) implies #[trigger] done[q] == joined(f, done, q) by {
            if q == up {
                // neither `up` nor its children are ancestors of `up`
                if is_ancestor(up, up) {
                    lemma_on_path_bounds(up, parent(up));
                }
                if is_ancestor(2 * up, up) {
                    lemma_on_path_bounds(2 * up, parent(up));
                }
                if is_ancestor(2 * up + 1, up) {
                    lemma_on_path_bounds(2 * up + 1, parent(up));
                }
                assert(done[up] == next[up]);
                assert(done[2 * up] == next[2 * up]);
                assert(done[2 * up + 1] == next[2 * up + 1]);
            }
        }
    }
}

/// Assigning an item to leaf `k` keeps the length of the storage, puts the
/// item's digest in the leaf, makes every ancestor of the leaf hold the hash
/// of its two children, and leaves every other position as it was.
pub proof fn lemma_assigned(f: HashFn, nodes: Seq<Digest>, k: int, item: Seq<u8>)
    requires
        well_shaped(nodes),
        0 <= k < leaf_count_of(nodes),
    ensures
        assigned(f, nodes, k, item).len() == nodes.len(),
        assigned(f, nodes, k, item)[leaf_count_of(nodes) + k] == f(item),
        forall|q: int|
            is_ancestor(q, leaf_count_of(nodes) + k) ==> #[trigger] assigned(f, nodes, k, item)[q]
                == joined(f, assigned(f, nodes, k, item), q),
        forall|q: int|
            0 <= q < nodes.len() && !on_path(q, leaf_count_of(nodes) + k) ==> #[trigger] assigned(
                f,
                nodes,
                k,
                item,
            )[q] == nodes[q],
{
    let leaf = leaf_count_of(nodes) + k;
    lemma_rehashed(f, nodes.update(leaf, f(item)), leaf);
    if is_ancestor(leaf, leaf) {
        lemma_on_path_bounds(leaf, parent(leaf));
    }
}

/// An assignment leaves every inner node that held the hash of its children
/// holding it, and makes every ancestor of the assigned leaf hold it.
pub proof fn lemma_assigned_settles(f: HashFn, nodes: Seq<Digest>, k: int, item: Seq<u8>, q: int)
    requires
        well_shaped(nodes),
        0 <= k < leaf_count_of(nodes),
        1 <= q < leaf_count_of(nodes),
        nodes[q] == joined(f, nodes, q) || on_path(q, leaf_count_of(nodes) + k),
    ensures
        assigned(f, nodes, k, item)[q] == joined(f, assigned(f, nodes, k, item), q),
{
    let leaf = leaf_count_of(nodes) + k;
    lemma_assigned(f, nodes, k, item);
    if !on_path(q, leaf) {
        // then neither child of `q` is on the path, so all three are as they were
        if on_path(2 * q, leaf) {
            lemma_on_path_parent(2 * q, leaf);
        }
        if on_path(2 * q + 1, leaf) {
            lemma_on_path_parent(2 * q + 1, leaf);
        }
    }
}

/// The leftmost leaf under position `q` in a tree of `n` leaves.
pub open spec fn leftmost_leaf(q: int, n: int) -> int
    decreases 2 * n - q,
{
    if 1 <= q < n {
        leftmost_leaf(2 * q, n)
    } else {
        q
    }
}

/// Every node has a leaf under it.
pub proof fn lemma_leftmost_leaf(q: int, n: int)
    requires
        1 <= q < 2 * n,
    ensures
        n <= leftmost_leaf(q, n) < 2 * n,
        on_path(q, leftmost_leaf(q, n)),
    decreases 2 * n - q,
{
    if q < n {
        lemma_leftmost_leaf(2 * q, n);
        lemma_on_path_parent(2 * q, leftmost_leaf(q, n));
    }
}

/// In a storage where every inner node holds the hash of its children, every
/// position holds the digest of the subtree under it.
pub proof fn lemma_consistent_is_committed(f: HashFn, nodes: Seq<Digest>, p: int)
    requires
        well_shaped(nodes),
        is_consistent(f, nodes),
        1 <= p < nodes.len(),
    ensures
        nodes[p] == subtree_digest(f, nodes.skip(leaf_count_of(nodes)), p),
    decreases nodes.len() - p,
{
    let n = leaf_count_of(nodes);
    assert(nodes.skip(n).len() == n);
    if p < n {
        lemma_consistent_is_committed(f, nodes, 2 * p);
        lemma_consistent_is_committed(f, nodes, 2 * p + 1);
    }
}

/// The storage that commits to `items` has every inner node holding the hash
/// of its children, every leaf holding the digest of its item, and the root
/// holding the root digest of the items' digests.
pub proof fn lemma_committed(f: HashFn, items: Seq<Seq<u8>>)
    requires
        items.len() >= 1,
    ensures
        well_shaped(committed(f, items)),
        is_consistent(f, committed(f, items)),
        committed(f, items)[1] == merkle_root(f, items.map_values(f)),
        forall|k: int|
            0 <= k < items.len() ==> #[trigger] committed(f, items)[items.len() + k] == f(
                items[k],
            ),
{
    let nodes = committed(f, items);
    assert forall|p: int| 1 <= p < leaf_count_of(nodes) implies #[trigger] nodes[p] == joined(
        f,
        nodes,
        p,
    ) by {
        assert(nodes[2 * p] == subtree_digest(f, items.map_values(f), 2 * p));
        assert(nodes[2 * p + 1] == subtree_digest(f, items.map_values(f), 2 * p + 1));
    }
}

/// `order` names leaves of a tree of `n` leaves only.
pub open spec fn in_range(order: Seq<int>, n: int) -> bool {
    forall|i: int| 0 <= i < order.len() ==> 0 <= #[trigger] order[i] < n
}

/// `order` names leaves of a tree of `n` leaves only, and each of them at
/// least once.
pub open spec fn covers(order: Seq<int>, n: int) -> bool {
    &&& in_range(order, n)
    &&& forall|k: int| 0 <= k < n ==> #[trigger] order.contains(k)
}

/// Some leaf that `order` names lies under position `q`, in a tree of `n`
/// leaves.
pub open spec fn reaches(order: Seq<int>, n: int, q: int) -> bool {
    exists|i: int| 0 <= i < order.len() && on_path(q, n + #[trigger] order[i])
}

/// After leaves of a new tree have been assigned in any order: each assigned
/// leaf holds the digest of its item, and each inner node with an assigned leaf
/// under it holds the hash of its two children, whether or not both of them
/// have been assigned.
pub proof fn lemma_assigned_in_order(f: HashFn, items: Seq<Seq<u8>>, order: Seq<int>)
    requires
        items.len() >= 1,
        in_range(order, items.len() as int),
    ensures
        assigned_in_order(f, blank(items.len()), items, order).len() == 2 * items.len(),
        assigned_in_order(f, blank(items.len()), items, order)[0] == placeholder(),
        forall|k: int|
            0 <= k < items.len() && order.contains(k) ==> #[trigger] assigned_in_order(
                f,
                blank(items.len()),
                items,
                order,
            )[items.len() + k] == f(items[k]),
        forall|q: int|
            1 <= q < items.len() && reaches(order, items.len() as int, q)
                ==> #[trigger] assigned_in_order(f, blank(items.len()), items, order)[q] == joined(
                f,
                assigned_in_order(f, blank(items.len()), items, order),
                q,
            ),
    decreases order.len(),
{
    let n = items.len() as int;
    let now = assigned_in_order(f, blank(items.len()), items, order);
    if order.len() > 0 {
        let earlier = order.drop_last();
        let before = assigned_in_order(f, blank(items.len()), items, earlier);
        let k_last = order.last();
        let leaf = n + k_last;
        lemma_assigned_in_order(f, items, earlier);
        lemma_assigned(f, before, k_last, items[k_last]);
        assert(now == assigned(f, before, k_last, items[k_last]));
        if on_path(0, leaf) {
            lemma_on_path_bounds(0, leaf);
        }
        assert forall|k: int| 0 <= k < n && order.contains(k) implies #[trigger] now[n + k] == f(
            items[k],
        ) by {
            if k != k_last {
                let i = choose|i: int| 0 <= i < order.len() && order[i] == k;
                assert(earlier[i] == k);
                if on_path(n + k, leaf) {
                    lemma_on_path_bounds(n + k, parent(leaf));
                }
            }
        }
        assert forall|q: int| 1 <= q < n && reaches(order, n, q) implies #[trigger] now[q]
            == joined(f, now, q) by {
            let i = choose|i: int| 0 <= i < order.len() && on_path(q, n + #[trigger] order[i]);
            if i < order.len() - 1 {
                assert(on_path(q, n + earlier[i]));
                assert(reaches(earlier, n, q));
            }
            lemma_assigned_settles(f, before, k_last, items[k_last], q);
        }
    }
}

/// Once every leaf of a new tree has been assigned, in whatever order and
/// however often, the storage is the one that commits to the items: every
/// position holds the digest of the subtree under it.
pub proof fn lemma_population_is_committed(f: HashFn, items: Seq<Seq<u8>>, order: Seq<int>)
    requires
        items.len() >= 1,
        covers(order, items.len() as int),
    ensures
        assigned_in_order(f, blank(items.len()), items, order) == committed(f, items),
{
    let n = items.len() as int;
    let now = assigned_in_order(f, blank(items.len()), items, order);
    lemma_assigned_in_order(f, items, order);
    assert forall|q: int| 1 <= q < n implies #[trigger] now[q] == joined(f, now, q) by {
        lemma_leftmost_leaf(q, n);
        let k = leftmost_leaf(q, n) - n;
        assert(order.contains(k));
        let i = choose|i: int| 0 <= i < order.len() && order[i] == k;
        assert(on_path(q, n + order[i]));
    }
    assert(now.skip(n) =~= items.map_values(f)) by {
        assert forall|k: int| 0 <= k < n implies now.skip(n)[k] == f(items[k]) by {
            assert(order.contains(k));
            assert(now[n + k] == f(items[k]));
        }
    }
    assert forall|p: int| 1 <= p < 2 * n implies now[p] == subtree_digest(
        f,
        items.map_values(f),
        p,
    ) by {
        lemma_consistent_is_committed(f, now, p);
    }
    assert(now =~= committed(f, items));
}

/// The root does not depend on the order in which the leaves were assigned:
/// any two orders that assign every leaf of a new tree give the same root,
/// the root digest of the items' digests, and indeed the same digest at every
/// position.
pub proof fn lemma_order_independence(
    f: HashFn,
    items: Seq<Seq<u8>>,
    first: Seq<int>,
    second: Seq<int>,
)
    requires
        items.len() >= 1,
        covers(first, items.len() as int),
        covers(second, items.len() as int),
    ensures
        assigned_in_order(f, blank(items.len()), items, first) == assigned_in_order(
            f,
            blank(items.len()),
            items,
            second,
        ),
        assigned_in_order(f, blank(items.len()), items, first)[1] == merkle_root(
            f,
            items.map_values(f),
        ),
{
    lemma_population_is_committed(f, items, first);
    lemma_population_is_committed(f, items, second);
}

/// In a storage where every inner node holds the hash of its children,
/// replaying the proof for position `p` from the digest at `p` gives the root.
pub proof fn lemma_replay_reaches_root(f: HashFn, nodes: Seq<Digest>, p: int)
    requires
        well_shaped(nodes),
        is_consistent(f, nodes),
        1 <= p < nodes.len(),
    ensures
        replayed(f, path_steps(nodes, p), nodes[p]) == nodes[1],
    decreases p,
{
    if p > 1 {
        let steps = path_steps(nodes, p);
        assert(steps.drop_first() =~= path_steps(nodes, parent(p)));
        assert(stepped(f, nodes[p], steps[0]) == joined(f, nodes, parent(p)));
        assert(nodes[parent(p)] == joined(f, nodes, parent(p)));
        lemma_replay_reaches_root(f, nodes, parent(p));
    }
}

/// In the tree that commits to `items`, the proof for leaf `k` replayed from
/// `items[k]` gives the root.
pub proof fn lemma_membership_round_trip(f: HashFn, items: Seq<Seq<u8>>, k: int)
    requires
        0 <= k < items.len(),
    ensures
        replayed(f, path_steps(committed(f, items), items.len() + k), f(items[k])) == committed(
            f,
            items,
        )[1],
{
    lemma_committed(f, items);
    lemma_replay_reaches_root(f, committed(f, items), items.len() + k);
}

/// Two different digests that one proof takes to the same result show a
/// collision of the hasher.
pub proof fn lemma_replay_is_injective(
    f: HashFn,
    steps: Seq<(Digest, Location)>,
    one: Digest,
    other: Digest,
)
    requires
        one != other,
        replayed(f, steps, one) == replayed(f, steps, other),
    ensures
        has_collision(f),
    decreases steps.len(),
{
    if steps.len() > 0 {
        let sibling = steps[0].0;
        let (x, y) = match steps[0].1 {
            Location::Right => (one + sibling, other + sibling),
            Location::Left => (sibling + one, sibling + other),
        };
        assert(x != y) by {
            if x == y {
                assert(one.len() == other.len()) by {
                    assert(x.len() == y.len());
                }
                assert forall|i: int| 0 <= i < one.len() implies one[i] == other[i] by {
                    match steps[0].1 {
                        Location::Right => {
                            assert(x[i] == one[i]);
                            assert(y[i] == other[i]);
                        },
                        Location::Left => {
                            assert(x[sibling.len() + i] == one[i]);
                            assert(y[sibling.len() + i] == other[i]);
                        },
                    }
                }
                assert(one =~= other);
            }
        }
        if f(x) != f(y) {
            lemma_replay_is_injective(f, steps.drop_first(), f(x), f(y));
        }
    }
}

/// If a proof replayed from two different items gives one and the same
/// result, then the hasher has a collision.
pub proof fn lemma_same_result_shows_collision(
    f: HashFn,
    steps: Seq<(Digest, Location)>,
    item: Seq<u8>,
    wrong: Seq<u8>,
)
    requires
        wrong != item,
        replayed(f, steps, f(wrong)) == replayed(f, steps, f(item)),
    ensures
        has_collision(f),
{
    if f(wrong) != f(item) {
        lemma_replay_is_injective(f, steps, f(wrong), f(item));
    }
}

/// With a hasher that has no collision, the proof for leaf `k` of the tree
/// that commits to `items` leads no item but `items[k]` to the root.
pub proof fn lemma_tamper_detection(f: HashFn, items: Seq<Seq<u8>>, k: int, wrong: Seq<u8>)
    requires
        0 <= k < items.len(),
        wrong != items[k],
        !has_collision(f),
    ensures
        replayed(f, path_steps(committed(f, items), items.len() + k), f(wrong)) != committed(
            f,
            items,
        )[1],
{
    let steps = path_steps(committed(f, items), items.len() + k);
    lemma_membership_round_trip(f, items, k);
    if replayed(f, steps, f(wrong)) == replayed(f, steps, f(items[k])) {
        lemma_same_result_shows_collision(f, steps, items[k], wrong);
    }
}

/// Adding a leaf index to a power of two does not change its logarithm.
proof fn lemma_log_of_leaf_position(n: int, k: int)
    requires
        is_pow2(n),
        0 <= k < n,
    ensures
        log(2, n + k) == log(2, n),
    decreases n,
{
    reveal(is_pow2);
    if n > 1 {
        lemma_log_s(2, n + k);
        lemma_log_s(2, n);
        lemma_log_of_leaf_position(n / 2, k / 2);
    }
}

/// The proof for position `p` has as many steps as `p` has ancestors.
proof fn lemma_path_steps_len(nodes: Seq<Digest>, p: int)
    requires
        p >= 1,
    ensures
        path_steps(nodes, p).len() == log(2, p),
    decreases p,
{
    if p > 1 {
        lemma_log_s(2, p);
        lemma_path_steps_len(nodes, parent(p));
    } else {
        lemma_log0(2, p);
    }
}

/// In a tree of `n` leaves, `n` a power of two, the proof for any leaf has
/// exactly as many steps as the logarithm of `n` to base 2.
pub proof fn lemma_proof_length(nodes: Seq<Digest>, n: int, k: int)
    requires
        is_pow2(n),
        0 <= k < n,
    ensures
        path_steps(nodes, n + k).len() == log(2, n),
{
    lemma_path_steps_len(nodes, n + k);
    lemma_log_of_leaf_position(n, k);
}

} // verus!
