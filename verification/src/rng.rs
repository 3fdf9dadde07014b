//! The random draws that the search makes, each with what is known about
//! every possible outcome.

use rand::seq::SliceRandom;
use rand::Rng;
use rand_xoshiro::Xoshiro256PlusPlus;
use vstd::prelude::*;

verus! {

/// The generator that is threaded through every randomised step.
#[verifier::external_type_specification]
#[verifier::external_body]
pub struct ExXoshiro256PlusPlus(Xoshiro256PlusPlus);

/// Draws an index with `rand::Rng::gen_range` on the half-open range
/// `low..high`. That function panics on an empty range and otherwise returns
/// a value inside the range; which one is left open.
#[verifier::external_body]
pub(crate) fn gen_range(rng: &mut Xoshiro256PlusPlus, low: usize, high: usize) -> (r: usize)
    requires
        low < high,
    ensures
        low <= r < high,
{
    rng.gen_range(low..high)
}

/// Picks an element with `rand::seq::SliceRandom::choose`: none from an
/// empty vector, else one of its elements; which one is left open.
#[verifier::external_body]
pub(crate) fn pick_one(rng: &mut Xoshiro256PlusPlus, items: &Vec<usize>) -> (picked: Option<usize>)
    ensures
        picked is None <==> items.len() == 0,
        picked matches Some(x) ==> items@.contains(x),
{
    items.choose(rng).copied()
}

/// Shuffles in place with `rand::seq::SliceRandom::shuffle`, which only swaps
/// elements: afterwards the vector holds the same values, each as often as
/// before, in an order that is left open.
#[verifier::external_body]
pub(crate) fn shuffle(rng: &mut Xoshiro256PlusPlus, items: &mut Vec<usize>)
    ensures
        final(items)@.to_multiset() == old(items)@.to_multiset(),
{
    items.shuffle(rng)
}

/// Draws `amount` distinct indices below `length` with
/// `rand::seq::index::sample`, which panics if `amount` exceeds `length`,
/// and whose path for lengths beyond 32 bits expects `amount` to stay below
/// `length`. The order of the indices is left open.
#[verifier::external_body]
pub(crate) fn sample(rng: &mut Xoshiro256PlusPlus, length: usize, amount: usize) -> (picked: Vec<
    usize,
>)
    requires
        amount <= length,
        length > 0xffff_ffff ==> amount < length,
    ensures
        picked.len() == amount,
        picked@.no_duplicates(),
        forall|i: int| 0 <= i < picked.len() ==> picked[i] < length,
{
    rand::seq::index::sample(rng, length, amount).into_vec()
}

} // verus!
