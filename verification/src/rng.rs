//! The library's only source of randomness: rand's thread-local generator
//! and its slice shuffle, behind trusted declarations. Nothing is assumed
//! about which permutation a shuffle picks, only that it is one.
use vstd::prelude::*;

use rand::seq::SliceRandom;

verus! {

#[verifier::external_type_specification]
#[verifier::external_body]
pub struct ExThreadRng(rand::rngs::ThreadRng);

/// Relies on rand::rng, which hands back a handle to the thread-local
/// random generator. (rand documents that it panics only if the operating
/// system's randomness source fails while seeding.)
#[verifier::external_body]
pub fn new_rng() -> rand::rngs::ThreadRng {
    rand::rng()
}

/// Relies on rand's SliceRandom::shuffle, which rearranges the elements
/// of the slice in place: afterwards the vector holds a permutation of
/// what it held before.
#[verifier::external_body]
pub fn shuffle<T>(rng: &mut rand::rngs::ThreadRng, v: &mut Vec<T>)
    ensures
        final(v)@.len() == old(v)@.len(),
        final(v)@.to_multiset() == old(v)@.to_multiset(),
{
    v.as_mut_slice().shuffle(rng);
}

} // verus!
