//! A deck: an identified card collection with named piles carved out of
//! it on demand.

use vstd::prelude::*;

use crate::all_cards::all_cards;
use crate::card::Card;
use crate::cardcollection::{
    find_pile_index, lemma_push_empty_pile_wf, pile_named, piles_disjoint_from, piles_wf,
    CardCollection, NamedPile,
};
use crate::cardselection::{clamped, CardSelection};
use crate::errors::CardAPIError;
use crate::ids::new_id;

verus! {

/// An identified deck: its cards plus a mapping of pile names to piles.
#[derive(Debug)]
pub struct Deck {
    _id: String,
    _cards: CardCollection,
    _piles: Vec<NamedPile>,
}

impl Deck {
    /// The deck's identifier.
    pub closed spec fn spec_id(&self) -> Seq<char> {
        self._id@
    }

    /// The deck's own cards, bottom first.
    pub closed spec fn spec_cards(&self) -> Seq<Card> {
        self._cards@
    }

    /// The deck's named piles, in creation order.
    pub closed spec fn spec_piles(&self) -> Seq<NamedPile> {
        self._piles@
    }

    /// Whether a pile of this name exists.
    pub open spec fn has_pile_named(&self, name: Seq<char>) -> bool {
        pile_named(self.spec_piles(), name)
    }

    /// Well-formed: the deck and every pile are duplicate-free, pile
    /// names are unique, and no card sits in two places.
    pub open spec fn wf(&self) -> bool {
        &&& self.spec_cards().no_duplicates()
        &&& piles_wf(self.spec_piles())
        &&& piles_disjoint_from(self.spec_piles(), self.spec_cards())
    }

    /// A fresh deck holding what `selection` picks from a full
    /// canonical deck, under a fresh random id, with no piles yet.
    /// Creation never fails.
    pub fn new(selection: CardSelection) -> (r: Result<Deck, CardAPIError>)
        ensures
            r is Ok,
            match r {
                Ok(d) => {
                    &&& d.wf()
                    &&& d.spec_id().len() == 12
                    &&& d.spec_piles().len() == 0
                    &&& forall|c: Card| d.spec_cards().contains(c) ==> all_cards().contains(c)
                    &&& selection.is_deterministic() ==> d.spec_cards()
                        == selection.spec_selected(all_cards())
                    &&& match selection {
                        CardSelection::All(_) => d.spec_cards().to_multiset()
                            == all_cards().to_multiset(),
                        CardSelection::Random(n) => d.spec_cards().len() == clamped(n as int, 52),
                        _ => true,
                    }
                },
                Err(_) => false,
            },
    {
        let result = Deck {
            _id: new_id(),
            _cards: CardCollection::from_selection(selection),
            _piles: Vec::new(),
        };
        Ok(result)
    }

    /// Creates an empty pile under `name`; fails with `AlreadyExists`,
    /// changing nothing, exactly when the name is already in use.
    pub fn new_pile(&mut self, name: String) -> (r: Result<&CardCollection, CardAPIError>)
        ensures
            old(self).wf() ==> final(self).wf(),
            match r {
                Err(e) => {
                    &&& e == CardAPIError::AlreadyExists
                    &&& old(self).has_pile_named(name@)
                    &&& *final(self) == *old(self)
                },
                Ok(cc) => {
                    &&& !old(self).has_pile_named(name@)
                    &&& cc@ == Seq::<Card>::empty()
                    &&& final(self).spec_piles().len() == old(self).spec_piles().len() + 1
                    &&& final(self).spec_piles().last().name@ == name@
                    &&& final(self).spec_piles().last().cards@ == Seq::<Card>::empty()
                    &&& forall|i: int|
                        0 <= i < old(self).spec_piles().len() ==> final(self).spec_piles()[i]
                            == old(self).spec_piles()[i]
                    &&& final(self).spec_cards() == old(self).spec_cards()
                    &&& final(self).spec_id() == old(self).spec_id()
                },
            },
    {
        match find_pile_index(&self._piles, &name) {
            Some(_) => Err(CardAPIError::AlreadyExists),
            None => {
                self._piles.push(NamedPile { name, cards: CardCollection::new() });
                let idx = self._piles.len() - 1;
                proof {
                    if old(self).wf() {
                        lemma_push_empty_pile_wf(
                            old(self).spec_piles(),
                            self.spec_piles(),
                            self.spec_cards(),
                        );
                    }
                }
                Ok(&self._piles[idx].cards)
            },
        }
    }

    /// Whether a pile of this name exists.
    pub fn has_pile(&self, name: &String) -> (r: bool)
        ensures
            r == self.has_pile_named(name@),
    {
        match find_pile_index(&self._piles, name) {
            Some(i) => {
                proof {
                    assert(self.spec_piles()[i as int].name@ == name@);
                }
                true
            },
            None => false,
        }
    }

    /// The pile of this name, if any.
    pub fn get_pile(&self, name: &String) -> (r: Option<&CardCollection>)
        ensures
            match r {
                Some(cc) => exists|i: int|
                    0 <= i < self.spec_piles().len() && (#[trigger] self.spec_piles()[i]).name@
                        == name@ && cc@ == self.spec_piles()[i].cards@,
                None => !self.has_pile_named(name@),
            },
    {
        match find_pile_index(&self._piles, name) {
            Some(i) => {
                let cc = &self._piles[i].cards;
                proof {
                    assert((#[trigger] self.spec_piles()[i as int]).name@ == name@ && cc@
                        == self.spec_piles()[i as int].cards@);
                }
                Some(cc)
            },
            None => None,
        }
    }

    /// The deck's identifier.
    pub fn id(&self) -> (r: &String)
        ensures
            r@ == self.spec_id(),
    {
        &self._id
    }

    /// The deck's own cards.
    pub fn cards(&self) -> (r: &CardCollection)
        ensures
            r@ == self.spec_cards(),
    {
        &self._cards
    }

    /// Exclusive access to the deck's own cards; the id and piles stay
    /// as they are.
    pub fn cards_mut(&mut self) -> (r: &mut CardCollection)
        ensures
            r@ == old(self).spec_cards(),
            final(self).spec_cards() == final(r)@,
            final(self).spec_id() == old(self).spec_id(),
            final(self).spec_piles() == old(self).spec_piles(),
    {
        &mut self._cards
    }
}

} // verus!
