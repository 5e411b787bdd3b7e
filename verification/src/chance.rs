//! What the renderer draws at random, and what it asks of the machine.

use crate::scalar::ONE;
use vstd::prelude::*;

verus! {

/// Calls `rand::random_range` on the half-open range from zero to
/// `ONE`: a jitter of less than one pixel, drawn from the generator of
/// the calling thread. Whatever is drawn lies in that range.
#[verifier::external_body]
pub(crate) fn random_jitter() -> (j: i64)
    ensures
        0 <= j < ONE,
{
    rand::random_range(0..ONE)
}

/// Calls `rand::seq::SliceRandom::shuffle` with the generator of the
/// calling thread. The pixels are put in a random order: the same
/// pixels, each as often as before.
#[verifier::external_body]
pub(crate) fn shuffle(pixels: &mut Vec<(u32, u32)>)
    ensures
        final(pixels)@.to_multiset() == old(pixels)@.to_multiset(),
{
    rand::seq::SliceRandom::shuffle(pixels.as_mut_slice(), &mut rand::rng())
}

/// Calls `num_cpus::get`: the number of processors that the machine
/// offers to this process. Nothing is claimed of the number.
#[verifier::external_body]
pub(crate) fn processors() -> (n: usize)
{
    num_cpus::get()
}

} // verus!
