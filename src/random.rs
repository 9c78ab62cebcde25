//! The calls into outside crates that the policy makes: random draws and
//! order-keeping deduplication.

use vstd::prelude::*;
use crate::ring::dedup;
use itertools::Itertools;
use rand::seq::SliceRandom;
use rand::Rng;

verus! {

/// Relies on rand's `Rng::gen_range` over the thread-local generator: a value
/// in `0..n`, which is not empty.
#[verifier::external_body]
pub(crate) fn random_index(n: usize) -> (r: usize)
    requires
        n > 0,
    ensures
        r < n,
{
    rand::thread_rng().gen_range(0..n)
}

/// Relies on rand's `SliceRandom::shuffle` over the thread-local generator:
/// the same elements in some order.
#[verifier::external_body]
pub(crate) fn shuffled(v: Vec<usize>) -> (r: Vec<usize>)
    ensures
        r@.to_multiset() == v@.to_multiset(),
{
    let mut v = v;
    v.shuffle(&mut rand::thread_rng());
    v
}

/// Relies on itertools' `Itertools::unique`: each element at its first
/// occurrence, in order.
#[verifier::external_body]
pub(crate) fn unique(v: Vec<usize>) -> (r: Vec<usize>)
    ensures
        r@ == dedup(v@),
{
    v.into_iter().unique().collect()
}

} // verus!
