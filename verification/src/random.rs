//! The random choices of the search, drawn from the `rand` crate.
//!
//! Nothing in this file is proved. Each item states what the library
//! takes for granted about `rand`: that a drawn index lies below its bound,
//! and that shuffling rearranges a vector without adding or losing anything.

use vstd::prelude::*;
use rand::seq::SliceRandom;
use rand::Rng;

verus! {

/// `rand::rngs::ThreadRng`, the handle to the random number generator of the
/// current thread. The library only passes it on.
#[verifier::external_type_specification]
#[verifier::external_body]
pub struct ExThreadRng(rand::rngs::ThreadRng);

/// `rand::thread_rng` hands out the generator of the current thread. Nothing
/// is claimed about it. It panics if the operating system cannot seed the
/// generator.
pub assume_specification[ rand::thread_rng ]() -> (rng: rand::rngs::ThreadRng);

/// Draws an index below `bound` with `Rng::gen_range` on the range
/// `0..bound`.
///
/// `gen_range` panics on an empty range, hence the demand that `bound` is
/// positive. For a range that is not empty it returns a value of the range;
/// which one is left open.
#[verifier::external_body]
pub(crate) fn random_index(rng: &mut rand::rngs::ThreadRng, bound: usize) -> (index: usize)
    requires
        bound > 0,
    ensures
        index < bound,
{
    rng.gen_range(0..bound)
}

/// Rearranges `values` with `SliceRandom::shuffle`.
///
/// `shuffle` only swaps elements of the slice, so afterwards the vector
/// holds the same values as before, each as often as before; their order is
/// left open.
#[verifier::external_body]
pub(crate) fn shuffle(values: &mut Vec<u32>, rng: &mut rand::rngs::ThreadRng)
    ensures
        final(values)@.to_multiset() == old(values)@.to_multiset(),
{
    values.shuffle(rng);
}

} // verus!
