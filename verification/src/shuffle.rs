//! The one place where randomness enters card movement: a shuffle taken
//! on trust from the `rand` crate.

use rand::seq::SliceRandom;
use vstd::prelude::*;

use crate::card::Card;

verus! {

/// Relies on rand's `SliceRandom::shuffle`: it permutes the slice in
/// place by swaps, so whatever order comes out, the result holds exactly
/// the cards that went in.
#[verifier::external_body]
pub(crate) fn shuffle_cards(cards: Vec<Card>) -> (r: Vec<Card>)
    ensures
        r@.len() == cards@.len(),
        r@.to_multiset() == cards@.to_multiset(),
{
    let mut v = cards;
    v.shuffle(&mut rand::thread_rng());
    v
}

} // verus!
