//! The random draws that the search makes, from the ChaCha generator of
//! `rand_chacha` through the `rand` traits.
use vstd::prelude::*;

use crate::keycode::Keycode;
use rand::seq::SliceRandom;
use rand::Rng;
use rand_chacha::ChaCha8Rng;

verus! {

#[verifier::external_type_specification]
#[verifier::external_body]
pub struct ExChaCha8Rng(ChaCha8Rng);

/// Relies on `Rng::gen_range` over `0..n`: a value below `n` (the range is
/// not empty).
#[verifier::external_body]
pub fn random_below(rng: &mut ChaCha8Rng, n: usize) -> (r: usize)
    requires
        n > 0,
    ensures
        r < n,
{
    rng.gen_range(0..n)
}

/// Relies on `SliceRandom::shuffle`: a permutation of the same keycodes, made
/// of swaps.
#[verifier::external_body]
pub fn shuffle_keycodes(rng: &mut ChaCha8Rng, v: &mut Vec<Keycode>)
    ensures
        final(v)@.to_multiset() == old(v)@.to_multiset(),
{
    v.as_mut_slice().shuffle(rng)
}

} // verus!
