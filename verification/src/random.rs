//! The random draws that workload generation makes, through `rand` on the
//! `Xoshiro256Plus` generator of `rand_xoshiro`.

use rand::distr::{Alphabetic, Alphanumeric};
use rand::seq::SliceRandom;
use rand::Rng;
use rand_xoshiro::Xoshiro256Plus;
use vstd::prelude::*;

verus! {

/// The generator that workloads are drawn from.
#[verifier::external_type_specification]
#[verifier::external_body]
pub struct ExXoshiro256Plus(Xoshiro256Plus);

/// An ASCII digit, `0`-`9`.
pub open spec fn is_digit(c: u8) -> bool {
    48 <= c <= 57
}

/// An ASCII letter, `A`-`Z` or `a`-`z`.
pub open spec fn is_letter(c: u8) -> bool {
    (65 <= c <= 90) || (97 <= c <= 122)
}

/// An ASCII letter or digit.
pub open spec fn is_alphanumeric(c: u8) -> bool {
    is_letter(c) || is_digit(c)
}

/// Calls `rand::Rng::random_range` with the range `0..bound`; rand documents
/// that the value lies in the range and that the call panics when the range is
/// empty, hence the `requires`. Which value comes is left to chance.
#[verifier::external_body]
pub(crate) fn random_index(rng: &mut Xoshiro256Plus, bound: usize) -> (r: usize)
    requires
        bound > 0,
    ensures
        r < bound,
{
    rng.random_range(0..bound)
}

/// Calls `rand::Rng::sample` with `rand::distr::Alphanumeric`, which rand
/// documents as sampling ASCII letters and digits; which one comes is left
/// to chance.
#[verifier::external_body]
pub(crate) fn random_alphanumeric(rng: &mut Xoshiro256Plus) -> (c: u8)
    ensures
        is_alphanumeric(c),
{
    rng.sample(Alphanumeric)
}

/// Calls `rand::Rng::sample` with `rand::distr::Alphabetic`, which rand
/// documents as sampling ASCII letters; which one comes is left to chance.
#[verifier::external_body]
pub(crate) fn random_alphabetic(rng: &mut Xoshiro256Plus) -> (c: u8)
    ensures
        is_letter(c),
{
    rng.sample(Alphabetic)
}

/// Calls `rand::seq::SliceRandom::shuffle`, which rand documents as putting
/// the items in a permutation of their order; the claim is only that the
/// same items remain, each as often. Which permutation comes is left to
/// chance.
#[verifier::external_body]
pub(crate) fn shuffle<T>(rng: &mut Xoshiro256Plus, v: &mut Vec<T>)
    ensures
        final(v)@.to_multiset() == old(v)@.to_multiset(),
{
    v.shuffle(rng)
}

} // verus!
