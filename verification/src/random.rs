//! The random draws that making a puzzle needs. They are made by the `rand`
//! crate; what this module says of them is taken on trust from its source.

use rand::rngs::ThreadRng;
use rand::seq::IteratorRandom;
use rand::Rng;
use vstd::prelude::*;

verus! {

/// `rand::rngs::ThreadRng`, the handle on the random number generator of
/// the running thread. Nothing is known of what it holds.
#[verifier::external_type_specification]
#[verifier::external_body]
pub struct ExThreadRng(rand::rngs::ThreadRng);

/// `rand::thread_rng` hands out the generator of the running thread, which
/// the system seeds when the thread first asks for it. Nothing is claimed of
/// the handle. Where the system cannot seed the generator, `rand` panics.
pub assume_specification[ rand::thread_rng ]() -> (rng: rand::rngs::ThreadRng)
;

/// `Rng::gen_range` on the inclusive range `low..=high`: the number drawn
/// lies in the range. Which number it is depends on the generator alone, so
/// no more is said. `rand` panics on an empty range, which `requires` leaves
/// out.
#[verifier::external_body]
pub(crate) fn gen_range_inclusive(rng: &mut ThreadRng, low: u8, high: u8) -> (n: u8)
    requires
        low <= high,
    ensures
        low <= n <= high,
{
    rng.gen_range(low..=high)
}

/// `IteratorRandom::choose` on the items of `nums`: it picks one of them,
/// and gives `None` if and only if there is none to pick. Which item it
/// picks depends on the generator alone.
#[verifier::external_body]
pub(crate) fn choose_one(rng: &mut ThreadRng, nums: &Vec<u8>) -> (picked: Option<u8>)
    ensures
        match picked {
            Some(d) => nums@.contains(d),
            None => nums@.len() == 0,
        },
{
    nums.iter().choose(rng).copied()
}

} // verus!
