use vstd::prelude::*;
use rand::seq::SliceRandom;
use rand::Rng;

verus! {

/// The thread-local random number generator of the `rand` crate. Nothing is
/// known of what it holds.
#[verifier::external_type_specification]
#[verifier::external_body]
pub struct ExThreadRng(rand::rngs::ThreadRng);

/// Calls `rand::thread_rng`, which hands out the generator of the current
/// thread. Nothing is claimed of the generator. The call fails only where
/// the system has no seed to give.
#[verifier::external_body]
pub(crate) fn thread_rng() -> (rng: rand::rngs::ThreadRng) {
    rand::thread_rng()
}

/// Calls `Rng::gen_range` with the half-open range from 0 to `bound`. The
/// range must not be empty. Claimed: the number drawn lies in the range.
/// Which number it is depends on the generator and is left open.
#[verifier::external_body]
pub(crate) fn gen_index(rng: &mut rand::rngs::ThreadRng, bound: usize) -> (i: usize)
    requires
        bound > 0,
    ensures
        i < bound,
{
    rng.gen_range(0..bound)
}

/// Calls `SliceRandom::choose` on the items. Claimed: nothing is chosen from
/// an empty slice, and what is chosen from another is one of its items.
/// Which item it is depends on the generator and is left open.
#[verifier::external_body]
pub(crate) fn choose_item<'a, T>(items: &'a Vec<T>, rng: &mut rand::rngs::ThreadRng) -> (item: Option<&'a T>)
    ensures
        items@.len() == 0 ==> item is None,
        items@.len() > 0 ==> item is Some,
        item is Some ==> items@.contains(*item->0),
{
    items.choose(rng)
}

} // verus!
