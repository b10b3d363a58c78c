//! A named pile of cards scoped to a deck, as a plain record.

use vstd::prelude::*;

use crate::card::Card;

verus! {

/// A deck-scoped named pile: the deck it belongs to, its name, and the
/// cards it holds.
#[derive(Debug)]
pub struct Pile {
    _name: String,
    _deck_id: String,
    _cards: Vec<Card>,
}

impl Pile {
    /// The pile's name.
    pub closed spec fn spec_name(&self) -> Seq<char> {
        self._name@
    }

    /// The id of the deck the pile belongs to.
    pub closed spec fn spec_deck_id(&self) -> Seq<char> {
        self._deck_id@
    }

    /// The cards the pile holds, bottom first.
    pub closed spec fn spec_cards(&self) -> Seq<Card> {
        self._cards@
    }

    /// The pile's name.
    pub fn name(&self) -> (r: &String)
        ensures
            r@ == self.spec_name(),
    {
        &self._name
    }

    /// A pile named `name` under the deck `deck_id`, holding `cards`.
    pub fn new(name: String, deck_id: &String, cards: Vec<Card>) -> (r: Pile)
        ensures
            r.spec_name() == name@,
            r.spec_deck_id() == deck_id@,
            r.spec_cards() == cards@,
    {
        Pile { _name: name, _deck_id: deck_id.clone(), _cards: cards }
    }
}

} // verus!
