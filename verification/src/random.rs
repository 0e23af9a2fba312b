//! Random choices, drawn with the `rand` crate from a `Xoshiro256StarStar` generator.
//!
//! Nothing in this file is proved, and nothing is said of which outcome is drawn:
//! each function states what holds of every outcome.

use rand::seq::SliceRandom;
use rand_xoshiro::Xoshiro256StarStar;
use vstd::prelude::*;

verus! {

/// `Xoshiro256StarStar` of the `rand_xoshiro` crate, whose inside the proofs do not see.
#[verifier::external_type_specification]
#[verifier::external_body]
pub struct ExXoshiro256StarStar(Xoshiro256StarStar);

/// `SliceRandom::choose` on a slice: one of its items, or `None` if it has none.
#[verifier::external_body]
pub(crate) fn pick_one<'a, T>(rng: &mut Xoshiro256StarStar, items: &'a [T]) -> (pick: Option<&'a T>)
    ensures
        match pick {
            Some(item) => items@.contains(*item),
            None => items@.len() == 0,
        },
{
    items.choose(rng)
}

/// `SliceRandom::shuffle` on a slice: the same items in some order.
#[verifier::external_body]
pub(crate) fn shuffle<T>(rng: &mut Xoshiro256StarStar, items: &mut Vec<T>)
    ensures
        final(items)@.to_multiset() == old(items)@.to_multiset(),
{
    items.shuffle(rng)
}

} // verus!
