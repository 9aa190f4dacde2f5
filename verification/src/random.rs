//! The draws that the game takes from the `rand` crate's thread-local
//! generator. Nothing here is proved: each contract states what the crate
//! documents of every outcome, and no more.

use vstd::prelude::*;
use rand::seq::{IteratorRandom, SliceRandom};
use rand::Rng;

verus! {

/// Calls `Rng::gen_ratio`, which panics if the denominator is 0 or less
/// than the numerator, and else returns true with the chance of
/// `numerator` in `denominator`. Nothing is claimed of the outcome.
#[verifier::external_body]
pub(crate) fn coin_flip(numerator: u32, denominator: u32) -> (heads: bool)
    requires
        0 < denominator,
        numerator <= denominator,
{
    rand::thread_rng().gen_ratio(numerator, denominator)
}

/// Calls `Rng::gen_range(0..n)`, which panics on an empty range and else
/// returns a value of the range: here an index below `n`.
#[verifier::external_body]
pub(crate) fn random_index(n: usize) -> (i: usize)
    requires
        n > 0,
    ensures
        i < n,
{
    rand::thread_rng().gen_range(0..n)
}

/// Calls `IteratorRandom::choose` on the indices `0..n`, which returns `None`
/// if and only if the iterator is empty, and else one of its items.
#[verifier::external_body]
pub(crate) fn choose_index(n: usize) -> (r: Option<usize>)
    ensures
        r is None <==> n == 0,
        r is Some ==> r->0 < n,
{
    (0..n).choose(&mut rand::thread_rng())
}

/// Calls `SliceRandom::shuffle`, which permutes the slice in place by
/// swapping its elements: the items are the same, each as often as before.
#[verifier::external_body]
pub(crate) fn shuffle_cells(cells: &mut Vec<(usize, usize)>)
    ensures
        final(cells)@.to_multiset() == old(cells)@.to_multiset(),
{
    cells.shuffle(&mut rand::thread_rng());
}

} // verus!
