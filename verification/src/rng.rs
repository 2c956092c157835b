//! Trusted access to the system random number generator. Nothing more is
//! assumed of an outcome than its range; two calls may differ.

use rand::seq::SliceRandom;
use rand::Rng;

use vstd::prelude::*;

verus! {

/// Relies on rand::Rng::gen_range over `0..n`: the result lies below `n`.
#[verifier::external_body]
pub fn rand_below(n: usize) -> (r: usize)
    requires
        n > 0,
    ensures
        r < n,
{
    rand::thread_rng().gen_range(0..n)
}

/// Relies on rand::Rng::gen for bool: a coin flip; nothing is promised of
/// the outcome.
#[verifier::external_body]
pub fn rand_bool() -> bool {
    rand::thread_rng().gen()
}

/// Relies on rand::seq::SliceRandom::shuffle: reorders the elements in
/// place, keeping exactly the same multiset of values.
#[verifier::external_body]
pub fn rand_shuffle(v: &mut Vec<usize>)
    ensures
        final(v)@.to_multiset() == old(v)@.to_multiset(),
{
    v.shuffle(&mut rand::thread_rng());
}

} // verus!
