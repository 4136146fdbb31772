//! The tree itself: storage for the digests, and the operations on it.

use crate::error::MerkleError;
use crate::hasher::{computes, is_hash_function, Digest, HashFn};
use crate::laws::{lemma_population_is_committed, lemma_proof_length};
use crate::membership::{Location, Proof, ProofStep};
use crate::model::{
    ascending, assigned, assigned_in_order, blank, bytes_of, committed, leaf_count_of, path_steps,
    placeholder, rehashed, replayed, stepped, well_shaped,
};
use crate::node_index::{is_left, leaf_position, parent, sibling, NodeIndex};
use vstd::arithmetic::logarithm::log;
use vstd::arithmetic::power2::is_pow2;
use vstd::prelude::*;
use vstd::slice::{slice_subrange, slice_to_vec};

verus! {

/// The digests of all nodes, one slot per position. Slot 0 is unused.
#[derive(Debug)]
pub struct Nodes(Vec<Vec<u8>>);

impl View for Nodes {
    type V = Seq<Digest>;

    closed spec fn view(&self) -> Seq<Digest> {
        Seq::new(self.0@.len(), |i: int| self.0@[i]@)
    }
}

impl Nodes {
    /// Two slots for each of `leaf_count` leaves, each holding the placeholder.
    fn new(leaf_count: usize) -> (r: Self)
        requires
            2 * leaf_count <= usize::MAX,
        ensures
            r@ == blank(leaf_count as nat),
    {
        let unset: Vec<u8> = vec![0u8];
        let ghost unset_bytes = unset@;
        let slots = vec![unset; leaf_count * 2];
        assert forall|i: int| 0 <= i < slots@.len() implies (#[trigger] slots@[i])@
            == placeholder() by {
            assert(cloned(unset_bytes[0], slots@[i]@[0]));
            assert(slots@[i]@ =~= unset_bytes);
        }
        let r = Self(slots);
        assert(r@ =~= blank(leaf_count as nat));
        r
    }

    /// The digest at position `index`.
    fn at(&self, index: NodeIndex) -> (r: &Vec<u8>)
        requires
            index@ < self@.len(),
        ensures
            r@ == self@[index@ as int],
    {
        &self.0[index.inner()]
    }

    /// Overwrites the digest at position `index` with `data`.
    fn set_at(&mut self, index: NodeIndex, data: &[u8])
        requires
            index@ < old(self)@.len(),
        ensures
            final(self)@ == old(self)@.update(index@ as int, data@),
    {
        self.0[index.inner()] = slice_to_vec(data);
        assert(self@ =~= old(self)@.update(index@ as int, data@));
    }

    /// The number of slots.
    fn len(&self) -> (r: usize)
        ensures
            r == self@.len(),
    {
        self.0.len()
    }

    /// Whether there is no slot.
    fn is_empty(&self) -> (r: bool)
        ensures
            r == (self@.len() == 0),
    {
        self.0.is_empty()
    }
}

/// A Merkle tree with a fixed number of leaves, over a caller-supplied hasher.
#[derive(Debug)]
pub struct MerkleTree<Hasher> where Hasher: Fn(&[u8]) -> Vec<u8> {
    nodes: Nodes,
    hasher: Hasher,
}

/// A number is a power of two just when it is not zero and shares no bit with
/// its predecessor.
proof fn lemma_single_bit_is_pow2(n: usize)
    ensures
        (n != 0 && n & ((n - 1) as usize) == 0) <==> is_pow2(n as int),
    decreases n,
{
    reveal(is_pow2);
    if n == 1 {
        assert(1usize & ((1usize - 1) as usize) == 0) by (bit_vector);
    } else if n > 1 {
        lemma_single_bit_is_pow2(n / 2);
        assert((n & ((n - 1) as usize) == 0) <==> (n % 2 == 0 && (n / 2) & (((n / 2) - 1) as usize)
            == 0)) by (bit_vector)
            requires
                n > 1,
        ;
    }
}

impl<Hasher> MerkleTree<Hasher> where Hasher: Fn(&[u8]) -> Vec<u8> {
    /// The digest of every node, indexed by position. Slot 0 is unused.
    pub closed spec fn view(&self) -> Seq<Digest> {
        self.nodes@
    }

    /// The hasher that the tree was made with.
    pub closed spec fn hasher(&self) -> Hasher {
        self.hasher
    }

    /// The number of leaves.
    pub open spec fn spec_leaf_count(&self) -> int {
        leaf_count_of(self@)
    }

    /// What holds of every tree: the storage has two slots per leaf and fits in
    /// memory, the number of leaves is a power of two, and the hasher is total
    /// and deterministic.
    pub open spec fn wf(&self) -> bool {
        &&& well_shaped(self@)
        &&& self@.len() <= usize::MAX
        &&& is_pow2(self.spec_leaf_count())
        &&& is_hash_function(self.hasher())
    }

    /// A tree of `leaf_count` leaves with every slot unset, or
    /// `InvalidCapacity` where `leaf_count` is zero or not a power of two.
    pub fn new(leaf_count: usize, hasher: Hasher) -> (r: Result<Self, MerkleError>)
        requires
            is_hash_function(hasher),
            2 * leaf_count <= usize::MAX,
        ensures
            r is Ok <==> is_pow2(leaf_count as int),
            r matches Ok(tree) ==> {
                &&& tree.wf()
                &&& tree.hasher() == hasher
                &&& tree@ == blank(leaf_count as nat)
            },
            r matches Err(e) ==> e == MerkleError::InvalidCapacity,
    {
        if !Self::is_power_of_two(leaf_count) {
            return Err(MerkleError::InvalidCapacity);
        }
        proof {
            reveal(is_pow2);
        }
        Ok(Self { nodes: Nodes::new(leaf_count), hasher })
    }

    /// The tree that commits to `items`: a new tree of as many leaves, with
    /// `items[k]` assigned to leaf `k` for each `k` in turn. Every position
    /// then holds the digest of the subtree under it. `InvalidCapacity` where
    /// the number of items is zero or not a power of two.
    pub fn from_iter(items: &[&[u8]], hasher: Hasher) -> (r: Result<Self, MerkleError>)
        requires
            is_hash_function(hasher),
            2 * items@.len() <= usize::MAX,
        ensures
            r is Ok <==> is_pow2(items@.len() as int),
            r matches Ok(tree) ==> {
                &&& tree.wf()
                &&& tree.hasher() == hasher
                &&& forall|f: HashFn| #[trigger]
                    computes(hasher, f) ==> {
                        &&& tree@ == assigned_in_order(
                            f,
                            blank(items@.len()),
                            bytes_of(items@),
                            ascending(items@.len()),
                        )
                        &&& tree@ == committed(f, bytes_of(items@))
                    }
            },
            r matches Err(e) ==> e == MerkleError::InvalidCapacity,
    {
        let ghost bytes = bytes_of(items@);
        let mut mt = match Self::new(items.len(), hasher) {
            Ok(mt) => mt,
            Err(e) => {
                return Err(e);
            },
        };
        let mut index: usize = 0;
        while index < items.len()
            invariant
                mt.wf(),
                mt.hasher() == hasher,
                mt.spec_leaf_count() == items@.len(),
                index <= items@.len(),
                bytes == bytes_of(items@),
                forall|f: HashFn| #[trigger]
                    computes(hasher, f) ==> mt@ == assigned_in_order(
                        f,
                        blank(items@.len()),
                        bytes,
                        ascending(index as nat),
                    ),
            decreases items@.len() - index,
        {
            let _ = mt.set_at(index, items[index]);
            proof {
                assert(ascending((index + 1) as nat).drop_last() =~= ascending(index as nat));
                assert(ascending((index + 1) as nat).last() == index);
                assert(bytes[index as int] == items@[index as int]@);
            }
            index = index + 1;
        }
        proof {
            let order = ascending(index as nat);
            assert forall|k: int| 0 <= k < items@.len() implies #[trigger] order.contains(k) by {
                assert(order[k] == k);
            }
            assert forall|f: HashFn| #[trigger] computes(hasher, f) implies mt@ == committed(
                f,
                bytes,
            ) by {
                lemma_population_is_committed(f, bytes, order);
            }
        }
        Ok(mt)
    }

    /// The digest of the root. It commits to the items once every leaf has
    /// been assigned.
    pub fn root(&self) -> (r: &Vec<u8>)
        requires
            self.wf(),
        ensures
            r@ == self@[1],
    {
        self.nodes.at(NodeIndex::new(1))
    }

    /// The number of leaves: half the number of slots.
    pub fn leaf_count(&self) -> (r: usize)
        ensures
            r == self.spec_leaf_count(),
    {
        self.nodes.len() / 2
    }

    /// Whether the tree has no storage at all. No tree that `new` made has none.
    pub fn is_empty(&self) -> (r: bool)
        ensures
            r == (self@.len() == 0),
            self.wf() ==> !r,
    {
        self.nodes.is_empty()
    }

    /// Assigns `item` to leaf number `item_index`: stores its digest in the
    /// leaf and recomputes every ancestor of the leaf, from its parent up to
    /// the root, as the hash of the left child's digest followed by the right
    /// child's. `IndexOutOfRange`, and no change, where there is no such leaf.
    pub fn set_at(&mut self, item_index: usize, item: &[u8]) -> (r: Result<(), MerkleError>)
        requires
            old(self).wf(),
        ensures
            final(self).wf(),
            final(self).hasher() == old(self).hasher(),
            final(self)@.len() == old(self)@.len(),
            r is Ok <==> item_index < old(self).spec_leaf_count(),
            r is Ok ==> forall|f: HashFn| #[trigger]
                computes(old(self).hasher(), f) ==> final(self)@ == assigned(
                    f,
                    old(self)@,
                    item_index as int,
                    item@,
                ),
            r matches Err(e) ==> {
                &&& e == MerkleError::IndexOutOfRange
                &&& final(self)@ == old(self)@
            },
    {
        if item_index >= self.leaf_count() {
            return Err(MerkleError::IndexOutOfRange);
        }
        let node_index = self.to_node_index(item_index);
        let my_hash = (self.hasher)(item);
        self.nodes.set_at(node_index, my_hash.as_slice());
        self.hash_recursive(node_index);
        Ok(())
    }

    /// The position of leaf number `index`.
    pub fn to_node_index(&self, index: usize) -> (r: NodeIndex)
        requires
            index + self.spec_leaf_count() <= usize::MAX,
        ensures
            r@ == leaf_position(index as int, self.spec_leaf_count()),
    {
        NodeIndex::new(index + self.leaf_count())
    }

    /// `one` followed by `two`.
    fn concat(one: &[u8], two: &[u8]) -> (r: Vec<u8>)
        ensures
            r@ == one@ + two@,
    {
        let mut r: Vec<u8> = Vec::new();
        r.extend_from_slice(one);
        r.extend_from_slice(two);
        assert(r@ =~= one@ + two@);
        r
    }

    /// Recomputes every ancestor of the node at `node_index` from its two
    /// children, from the parent up to the root.
    fn hash_recursive(&mut self, node_index: NodeIndex)
        requires
            old(self).wf(),
            1 <= node_index@ < old(self)@.len(),
        ensures
            final(self).wf(),
            final(self).hasher() == old(self).hasher(),
            final(self)@.len() == old(self)@.len(),
            forall|f: HashFn| #[trigger]
                computes(old(self).hasher(), f) ==> final(self)@ == rehashed(
                    f,
                    old(self)@,
                    node_index@ as int,
                ),
        decreases node_index@,
    {
        if node_index.is_root() {
            return ;
        }
        let sibling = Self::sibling_index(node_index);
        let concat = if Self::is_left(node_index) {
            Self::concat(self.nodes.at(node_index), self.nodes.at(sibling))
        } else {
            Self::concat(self.nodes.at(sibling), self.nodes.at(node_index))
        };
        let parent_hash = (self.hasher)(concat.as_slice());
        let parent = Self::parent_index(node_index);
        self.nodes.set_at(parent, parent_hash.as_slice());
        self.hash_recursive(parent)
    }

    /// The digests of all nodes in order of position, from the root on.
    pub fn nodes(&self) -> (r: &[Vec<u8>])
        requires
            self.wf(),
        ensures
            r@.len() == self@.len() - 1,
            forall|i: int| 0 <= i < r@.len() ==> (#[trigger] r@[i])@ == self@[1 + i],
    {
        slice_subrange(self.nodes.0.as_slice(), 1, self.nodes.0.len())
    }

    /// The digests of the leaves, from the first leaf to the last.
    pub fn leaves(&self) -> (r: &[Vec<u8>])
        requires
            self.wf(),
        ensures
            r@.len() == self.spec_leaf_count(),
            forall|i: int|
                0 <= i < r@.len() ==> (#[trigger] r@[i])@ == self@[self.spec_leaf_count() + i],
    {
        slice_subrange(self.nodes.0.as_slice(), self.leaf_count(), self.nodes.0.len())
    }

    /// The membership proof for leaf number `index`: for the leaf and each of
    /// its ancestors below the root, the digest of its sibling as the tree
    /// holds it now, and the side the sibling stands on. It has one step for
    /// each level of the tree. `IndexOutOfRange` where there is no such leaf.
    pub fn proof_for(&self, index: usize) -> (r: Result<Proof, MerkleError>)
        requires
            self.wf(),
        ensures
            r is Ok <==> index < self.spec_leaf_count(),
            r matches Ok(path) ==> {
                &&& path@ == path_steps(self@, self.spec_leaf_count() + index)
                &&& path@.len() == log(2, self.spec_leaf_count())
            },
            r matches Err(e) ==> e == MerkleError::IndexOutOfRange,
    {
        if index >= self.leaf_count() {
            return Err(MerkleError::IndexOutOfRange);
        }
        let mut path = Proof::new(self.leaf_count());
        let node_index = self.to_node_index(index);
        self.proof_recursive(node_index, &mut path);
        proof {
            assert(path@ =~= path_steps(self@, self.spec_leaf_count() + index));
            lemma_proof_length(self@, self.spec_leaf_count(), index as int);
        }
        Ok(path)
    }

    /// Adds to `path` the steps for the node at `node_index` and for each of
    /// its ancestors below the root.
    fn proof_recursive(&self, node_index: NodeIndex, path: &mut Proof)
        requires
            self.wf(),
            1 <= node_index@ < self@.len(),
        ensures
            final(path)@ == old(path)@ + path_steps(self@, node_index@ as int),
        decreases node_index@,
    {
        if node_index.is_root() {
            assert(path@ =~= old(path)@ + path_steps(self@, node_index@ as int));
            return ;
        }
        let sibling_hash = self.nodes.at(Self::sibling_index(node_index)).clone();
        assert(sibling_hash@ =~= self@[sibling(node_index@ as int)]);
        path.add_step(
            ProofStep::new(
                sibling_hash,
                if Self::is_left(node_index) {
                    Location::Right
                } else {
                    Location::Left
                },
            ),
        );
        self.proof_recursive(Self::parent_index(node_index), path);
        assert(path@ =~= old(path)@ + path_steps(self@, node_index@ as int));
    }

    /// Replays `path` from `item`: hashes the item, then at each step hashes
    /// the digest so far together with the step's sibling digest, the sibling
    /// on the side that the step names. Nothing is compared here: the caller
    /// holds the result against the root that it trusts.
    pub fn verify(path: &Proof, item: &[u8], hasher: Hasher) -> (r: Vec<u8>)
        requires
            is_hash_function(hasher),
        ensures
            forall|f: HashFn| #[trigger]
                computes(hasher, f) ==> r@ == replayed(f, path@, f(item@)),
    {
        let mut my_hash = hasher(item);
        assert(path@.skip(0) =~= path@);
        for step in it: path.iter()
            invariant
                is_hash_function(hasher),
                it.seq().len() == path@.len(),
                forall|j: int| 0 <= j < path@.len() ==> (#[trigger] it.seq()[j])@ == path@[j],
                forall|f: HashFn| #[trigger]
                    computes(hasher, f) ==> replayed(f, path@.skip(it.index()), my_hash@)
                        == replayed(f, path@, f(item@)),
        {
            let ghost i = it.index();
            let ghost candidate = my_hash@;
            let concat = match step.direction() {
                Location::Right => Self::concat(my_hash.as_slice(), step.hash().as_slice()),
                Location::Left => Self::concat(step.hash().as_slice(), my_hash.as_slice()),
            };
            my_hash = hasher(concat.as_slice());
            proof {
                assert(path@[i] == it.seq()[i]@);
                assert(path@.skip(i).drop_first() =~= path@.skip(i + 1));
                assert forall|f: HashFn| #[trigger] computes(hasher, f) implies replayed(
                    f,
                    path@.skip(i + 1),
                    my_hash@,
                ) == replayed(f, path@, f(item@)) by {
                    assert(my_hash@ == stepped(f, candidate, path@.skip(i)[0]));
                }
            }
        }
        my_hash
    }

    /// Whether `n` is a power of two.
    fn is_power_of_two(n: usize) -> (r: bool)
        ensures
            r == is_pow2(n as int),
    {
        proof {
            lemma_single_bit_is_pow2(n);
        }
        if n == 0 {
            false
        } else {
            n & (n - 1) == 0
        }
    }

    /// The position of the parent.
    fn parent_index(node_index: NodeIndex) -> (r: NodeIndex)
        ensures
            r@ == parent(node_index@ as int),
    {
        if Self::is_left(node_index) {
            NodeIndex::new(node_index.inner() / 2)
        } else {
            NodeIndex::new((node_index.inner() - 1) / 2)
        }
    }

    /// The position of the parent's other child.
    fn sibling_index(node_index: NodeIndex) -> (r: NodeIndex)
        ensures
            r@ == sibling(node_index@ as int),
    {
        if Self::is_left(node_index) {
            NodeIndex::new(node_index.inner() + 1)
        } else {
            NodeIndex::new(node_index.inner() - 1)
        }
    }

    /// Whether the node is the left child of its parent.
    fn is_left(node_index: NodeIndex) -> (r: bool)
        ensures
            r == is_left(node_index@ as int),
    {
        node_index.inner() % 2 == 0
    }
}

} // verus!
