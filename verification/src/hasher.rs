//! The hash capability: a caller-supplied function from bytes to a digest.
//!
//! The tree takes any `Fn(&[u8]) -> Vec<u8>`. What it asks of that function is
//! that it accepts every byte string and that the bytes of its result depend
//! on the bytes of its argument alone. Contracts speak of such a hasher
//! through the mathematical function that it computes.

use vstd::prelude::*;

verus! {

/// A digest: the bytes that a hasher returns.
pub type Digest = Seq<u8>;

/// A function from bytes to digests, as a hasher computes one.
pub type HashFn = spec_fn(Seq<u8>) -> Digest;

/// `hasher` computes `f`: it accepts every byte string, and whatever it
/// returns for the bytes `x` holds the bytes `f(x)`.
pub open spec fn computes<H: Fn(&[u8]) -> Vec<u8>>(hasher: H, f: HashFn) -> bool {
    &&& forall|input: &[u8]| #[trigger] hasher.requires((input,))
    &&& forall|input: &[u8], output: Vec<u8>| #[trigger]
        hasher.ensures((input,), output) ==> output@ == f(input@)
}

/// `hasher` is total and deterministic: there is a function on byte strings
/// that it computes.
pub open spec fn is_hash_function<H: Fn(&[u8]) -> Vec<u8>>(hasher: H) -> bool {
    exists|f: HashFn| computes(hasher, f)
}

} // verus!
