//! The random source: the thread-local generator of the `rand` crate.
//!
//! Nothing here is proved. Each contract states what holds of every outcome of
//! the call it stands for.

use vstd::prelude::*;
use rand::Rng;
use rand::seq::{IndexedRandom, SliceRandom};

verus! {

#[verifier::external_type_specification]
#[verifier::external_body]
pub struct ExThreadRng(rand::rngs::ThreadRng);

/// `rand::rng`: a handle to the generator of the current thread. Nothing is
/// claimed of it. The call panics where the operating system has no entropy
/// to seed the generator of a thread with.
pub assume_specification[ rand::rng ]() -> (rng: rand::rngs::ThreadRng);

/// `Rng::random_range` on the half-open range `low..high`, which must not be
/// empty: the result lies in the range.
#[verifier::external_body]
pub(crate) fn random_in(rng: &mut rand::rngs::ThreadRng, low: u32, high: u32) -> (r: u32)
    requires
        low < high,
    ensures
        low <= r < high,
{
    rng.random_range(low..high)
}

/// `IndexedRandom::choose` on a slice: `None` where the slice is empty, else
/// one of its elements.
#[verifier::external_body]
pub(crate) fn choose_one(items: &Vec<usize>, rng: &mut rand::rngs::ThreadRng) -> (r: Option<usize>)
    ensures
        items@.len() == 0 ==> r is None,
        items@.len() > 0 ==> r is Some && items@.contains(r->0),
{
    items.choose(rng).copied()
}

/// `SliceRandom::shuffle`: reorders the slice in place; the elements stay the
/// same, each as often as before.
#[verifier::external_body]
pub(crate) fn shuffle(items: &mut Vec<usize>, rng: &mut rand::rngs::ThreadRng)
    ensures
        final(items)@.to_multiset() == old(items)@.to_multiset(),
{
    items.shuffle(rng);
}

} // verus!
