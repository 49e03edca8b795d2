//! Random draws, each a thin trusted wrapper over the `rand` crate.
//!
//! Every verified caller states what holds of every possible outcome; nothing
//! about the distribution itself is assumed beyond the ranges documented by
//! `rand`.
use vstd::prelude::*;

use crate::grammar::LexSymbol;
use rand::RngExt;
use rand::seq::SliceRandom;

verus! {

/// Relies on rand's `RngExt::random_range` over an inclusive range: a draw
/// between the given bounds. The range must be nonempty, else the call
/// panics.
#[verifier::external_body]
pub(crate) fn rand_between(lo: usize, hi: usize) -> (r: usize)
    requires
        lo <= hi,
    ensures
        lo <= r <= hi,
{
    rand::rng().random_range(lo..=hi)
}

/// Relies on rand's `seq::index::sample`: exactly `amount` distinct indices
/// drawn from `0..len`, in random order. The call panics when `amount`
/// exceeds `len`.
#[verifier::external_body]
pub(crate) fn rand_distinct_indices(len: usize, amount: usize) -> (r: Vec<usize>)
    requires
        amount <= len,
    ensures
        r@.len() == amount,
        forall|i: int| 0 <= i < r@.len() ==> r@[i] < len,
        forall|i: int, j: int| 0 <= i < j < r@.len() ==> r@[i] != r@[j],
{
    rand::seq::index::sample(&mut rand::rng(), len, amount).into_vec()
}

/// Relies on rand's `SliceRandom::shuffle`: a random in-place permutation,
/// so the elements afterwards are exactly the elements before — as values,
/// and therefore also as views.
#[verifier::external_body]
pub(crate) fn rand_shuffle(syms: &mut Vec<LexSymbol>)
    ensures
        final(syms)@.len() == old(syms)@.len(),
        final(syms)@.to_multiset() == old(syms)@.to_multiset(),
        final(syms).deep_view().to_multiset() == old(syms).deep_view().to_multiset(),
{
    syms.shuffle(&mut rand::rng());
}

} // verus!
