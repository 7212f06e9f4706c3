//! Randomness drawn from the `rand` crate.

use rand::rngs::ThreadRng;
use rand::seq::SliceRandom;
use vstd::prelude::*;

verus! {

/// `rand::rngs::ThreadRng`, the handle to the thread-local generator.
#[verifier::external_type_specification]
#[verifier::external_body]
pub struct ExThreadRng(ThreadRng);

/// `rand::thread_rng`: a handle to the generator of the current thread.
/// Nothing is claimed of the handle.
pub assume_specification[ rand::thread_rng ]() -> ThreadRng
;

/// `SliceRandom::shuffle` on the items of a vector: the items are permuted
/// in place by swaps, so afterwards the vector holds the same items, each
/// as often as before, in an order that depends on the generator.
#[verifier::external_body]
pub(crate) fn shuffle<T>(items: &mut Vec<T>, rng: &mut ThreadRng)
    ensures
        final(items)@.to_multiset() == old(items)@.to_multiset(),
{
    items.shuffle(rng);
}

/// `SliceRandom::choose` on the items of a vector: `None` for an empty
/// vector, else a reference to the item at some position, which depends on
/// the generator.
#[verifier::external_body]
pub(crate) fn pick_one<'a, T>(items: &'a Vec<T>, rng: &mut ThreadRng) -> (chosen: Option<&'a T>)
    ensures
        items.len() == 0 ==> chosen is None,
        items.len() > 0 ==> chosen is Some,
        chosen matches Some(item) ==> exists|i: int| 0 <= i < items.len() && items[i] == *item,
{
    items.choose(rng)
}

} // verus!
