//! Membership proofs: the sibling digests along the path from a leaf to the root.

use crate::hasher::Digest;
use vstd::arithmetic::logarithm::{lemma_log0, lemma_log_s, log};
use vstd::prelude::*;
use vstd::std_specs::iter::IteratorSpec;

verus! {

/// The side on which a sibling stands, seen from the node that is being
/// authenticated.
#[derive(Debug, PartialEq, Eq, Clone, Copy)]
pub enum Location {
    Right,
    Left,
}

/// One step of a proof: the digest of a sibling and the side it stands on.
#[derive(Debug, PartialEq)]
pub struct ProofStep {
    hash: Vec<u8>,
    direction: Location,
}

impl View for ProofStep {
    type V = (Digest, Location);

    closed spec fn view(&self) -> (Digest, Location) {
        (self.hash@, self.direction)
    }
}

impl ProofStep {
    /// A step that holds `hash` as the digest of a sibling standing on side
    /// `direction`.
    pub fn new(hash: Vec<u8>, direction: Location) -> (r: Self)
        ensures
            r@ == (hash@, direction),
    {
        Self { hash, direction }
    }

    /// The side on which the sibling stands.
    pub fn direction(&self) -> (r: &Location)
        ensures
            *r == self@.1,
    {
        &self.direction
    }

    /// The digest of the sibling.
    pub fn hash(&self) -> (r: &Vec<u8>)
        ensures
            r@ == self@.0,
    {
        &self.hash
    }
}

/// A membership proof: its steps in order from the leaf to the root.
#[derive(Debug, PartialEq)]
pub struct Proof(Vec<ProofStep>);

impl View for Proof {
    type V = Seq<(Digest, Location)>;

    closed spec fn view(&self) -> Seq<(Digest, Location)> {
        Seq::new(self.0@.len(), |i: int| self.0@[i]@)
    }
}

impl Proof {
    /// A proof without steps, with room for the steps of a tree of
    /// `leaf_count` leaves.
    pub fn new(leaf_count: usize) -> (r: Self)
        ensures
            r@ == Seq::<(Digest, Location)>::empty(),
    {
        let r = Self(Vec::with_capacity(depth(leaf_count)));
        assert(r@ =~= Seq::<(Digest, Location)>::empty());
        r
    }

    /// Puts `step` after the steps that the proof holds.
    pub fn add_step(&mut self, step: ProofStep)
        ensures
            final(self)@ == old(self)@.push(step@),
    {
        self.0.push(step);
        assert(self@ =~= old(self)@.push(step@));
    }

    /// An iterator over the steps, in order from the leaf to the root. The
    /// last two clauses let a `for` loop run over it.
    pub fn iter(&self) -> (r: core::slice::Iter<'_, ProofStep>)
        ensures
            r.remaining().len() == self@.len(),
            forall|i: int| 0 <= i < self@.len() ==> (#[trigger] r.remaining()[i])@ == self@[i],
            r.decrease() is Some,
            r.initial_value_relation(&r),
    {
        self.0.iter()
    }
}

/// The number of steps from a leaf to the root in a tree of `leaf_count`
/// leaves: the logarithm of `leaf_count` to base 2, rounded down.
pub fn depth(leaf_count: usize) -> (r: usize)
    ensures
        r == log(2, leaf_count as int),
{
    let mut steps: usize = 0;
    let mut width: usize = leaf_count;
    while width > 1
        invariant
            steps + width <= leaf_count,
            steps + log(2, width as int) == log(2, leaf_count as int),
        decreases width,
    {
        proof {
            lemma_log_s(2, width as int);
        }
        width = width / 2;
        steps = steps + 1;
    }
    proof {
        lemma_log0(2, width as int);
    }
    steps
}

} // verus!
