//! A game: an identifier, one deck, and named piles, with the draw that
//! moves a selection of cards between two named collections.

use vstd::multiset::Multiset;
use vstd::prelude::*;

use crate::all_cards::all_cards;
use crate::card::Card;
use crate::cardcollection::{
    distinct_cards, find_pile_index, lemma_pile_index_is, lemma_piles_multiset_update, lemma_push_empty_pile_wf,
    pile_index_of, pile_named, piles_disjoint_from, piles_multiset, piles_wf, vecs_disjoint, CardCollection,
    NamedPile,
};
use crate::cardselection::{clamped, CardSelection};
use crate::errors::CardAPIError;
use crate::ids::new_id;
use crate::seq_facts::disjoint_seqs;

verus! {

/// Which collection of a game a draw names: the deck itself, or a pile
/// by its name.
#[derive(Debug)]
pub enum CollectionType {
    Deck,
    Pile(String),
}

/// A game: an identifier, the deck, and the named piles. Cards are only
/// ever moved between its collections, never created or destroyed.
#[derive(Debug)]
pub struct Game {
    pub id: String,
    deck: CardCollection,
    piles: Vec<NamedPile>,
}

impl Game {
    /// The game's identifier.
    pub closed spec fn spec_id(&self) -> Seq<char> {
        self.id@
    }

    /// The deck's cards, bottom first.
    pub closed spec fn spec_deck(&self) -> Seq<Card> {
        self.deck@
    }

    /// The named piles, in creation order.
    pub closed spec fn spec_piles(&self) -> Seq<NamedPile> {
        self.piles@
    }

    /// Whether a pile of this name exists.
    pub open spec fn has_pile_named(&self, name: Seq<char>) -> bool {
        pile_named(self.spec_piles(), name)
    }

    /// Whether the named collection exists in this game.
    pub open spec fn resolves(&self, which: &CollectionType) -> bool {
        match *which {
            CollectionType::Deck => true,
            CollectionType::Pile(name) => self.has_pile_named(name@),
        }
    }

    /// The cards of the named collection; meaningful when it resolves.
    pub open spec fn collection_of(&self, which: &CollectionType) -> Seq<Card> {
        match *which {
            CollectionType::Deck => self.spec_deck(),
            CollectionType::Pile(name) => self.spec_piles()[pile_index_of(
                self.spec_piles(),
                name@,
            )].cards@,
        }
    }

    /// Whether two draw endpoints name the same collection.
    pub open spec fn same_collection(a: &CollectionType, b: &CollectionType) -> bool {
        match (*a, *b) {
            (CollectionType::Deck, CollectionType::Deck) => true,
            (CollectionType::Pile(s), CollectionType::Pile(t)) => s@ == t@,
            _ => false,
        }
    }

    /// Whether `which` names the pile at index `i`.
    pub open spec fn names_index(&self, which: &CollectionType, i: int) -> bool {
        match *which {
            CollectionType::Deck => false,
            CollectionType::Pile(name) => 0 <= i < self.spec_piles().len()
                && self.spec_piles()[i].name@ == name@,
        }
    }

    /// Every card in the game: the deck and all piles together.
    pub open spec fn total_cards(&self) -> Multiset<Card> {
        self.spec_deck().to_multiset().add(piles_multiset(self.spec_piles()))
    }

    /// Well-formed: the deck and every pile are duplicate-free, pile
    /// names are unique, and no card sits in two places.
    pub open spec fn wf(&self) -> bool {
        &&& self.spec_deck().no_duplicates()
        &&& piles_wf(self.spec_piles())
        &&& piles_disjoint_from(self.spec_piles(), self.spec_deck())
    }

    /// A fresh game: a random id, a full shuffled 52-card deck, and no
    /// piles.
    pub fn new() -> (r: Game)
        ensures
            r.wf(),
            r.spec_id().len() == 12,
            r.spec_piles().len() == 0,
            r.spec_deck().to_multiset() == all_cards().to_multiset(),
            r.spec_deck().len() == 52,
            r.total_cards() == all_cards().to_multiset(),
    {
        let deck = CardCollection::from_selection(CardSelection::All(true));
        let r = Game { id: new_id(), deck, piles: Vec::new() };
        proof {
            broadcast use vstd::multiset::group_multiset_axioms;
            broadcast use vstd::seq_lib::group_to_multiset_ensures;

            assert(r.spec_deck().to_multiset().len() == r.spec_deck().len());
            assert(all_cards().to_multiset().len() == all_cards().len());
            assert(r.total_cards() =~= all_cards().to_multiset());
        }
        r
    }

    /// The deck.
    pub fn deck(&self) -> (r: &CardCollection)
        ensures
            r@ == self.spec_deck(),
    {
        &self.deck
    }

    /// Creates an empty pile under `name`; fails with `AlreadyExists`,
    /// changing nothing, exactly when the name is already in use.
    pub fn new_pile(&mut self, name: String) -> (r: Result<(), CardAPIError>)
        ensures
            old(self).wf() ==> final(self).wf(),
            final(self).spec_id() == old(self).spec_id(),
            final(self).spec_deck() == old(self).spec_deck(),
            final(self).total_cards() == old(self).total_cards(),
            match r {
                Err(e) => {
                    &&& e == CardAPIError::AlreadyExists
                    &&& old(self).has_pile_named(name@)
                    &&& *final(self) == *old(self)
                },
                Ok(()) => {
                    &&& !old(self).has_pile_named(name@)
                    &&& final(self).spec_piles().len() == old(self).spec_piles().len() + 1
                    &&& final(self).spec_piles().last().name@ == name@
                    &&& final(self).spec_piles().last().cards@ == Seq::<Card>::empty()
                    &&& forall|i: int|
                        0 <= i < old(self).spec_piles().len() ==> final(self).spec_piles()[i]
                            == old(self).spec_piles()[i]
                },
            },
    {
        match find_pile_index(&self.piles, &name) {
            Some(_) => Err(CardAPIError::AlreadyExists),
            None => {
                self.piles.push(NamedPile { name, cards: CardCollection::new() });
                proof {
                    if old(self).wf() {
                        lemma_push_empty_pile_wf(
                            old(self).spec_piles(),
                            self.spec_piles(),
                            self.spec_deck(),
                        );
                    }
                    lemma_piles_multiset_push_empty(old(self).spec_piles(), self.spec_piles());
                }
                Ok(())
            },
        }
    }

    /// How many piles the game has.
    pub fn pile_count(&self) -> (r: usize)
        ensures
            r == self.spec_piles().len(),
    {
        self.piles.len()
    }

    /// The name of the pile at an index.
    pub fn pile_name_at(&self, i: usize) -> (r: &String)
        requires
            i < self.spec_piles().len(),
        ensures
            r@ == self.spec_piles()[i as int].name@,
    {
        &self.piles[i].name
    }

    /// The cards of the pile at an index.
    pub fn pile_at(&self, i: usize) -> (r: &CardCollection)
        requires
            i < self.spec_piles().len(),
        ensures
            r@ == self.spec_piles()[i as int].cards@,
    {
        &self.piles[i].cards
    }

    /// Rebuilds a game from stored parts: an id, the deck's cards, and
    /// the piles as name/cards pairs. Succeeds exactly on parts that
    /// form a consistent game; fails with `AlreadyExists` on a repeated
    /// pile name and with `CardAlreadyInCollection` when a card appears
    /// twice across the deck and piles.
    pub fn from_parts(id: String, deck: Vec<Card>, piles: Vec<(String, Vec<Card>)>) -> (r: Result<
        Game,
        CardAPIError,
    >)
        ensures
            r is Ok <==> parts_wf(deck@, piles@),
            match r {
                Ok(g) => {
                    &&& g.wf()
                    &&& g.spec_id() == id@
                    &&& g.spec_deck() == deck@
                    &&& g.spec_piles().len() == piles@.len()
                    &&& forall|i: int|
                        0 <= i < piles@.len() ==> (#[trigger] g.spec_piles()[i]).name@
                            == piles@[i].0@ && g.spec_piles()[i].cards@ == piles@[i].1@
                },
                Err(e) => e == if !parts_names_unique(piles@) {
                    CardAPIError::AlreadyExists
                } else {
                    CardAPIError::CardAlreadyInCollection
                },
            },
    {
        let mut i: usize = 0;
        while i < piles.len()
            invariant
                i <= piles@.len(),
                forall|a: int, b: int| 0 <= a < b < i ==> piles@[a].0@ != piles@[b].0@,
            decreases piles@.len() - i,
        {
            let mut j: usize = 0;
            while j < i
                invariant
                    j <= i < piles@.len(),
                    forall|a: int, b: int| 0 <= a < b < i ==> piles@[a].0@ != piles@[b].0@,
                    forall|b: int| 0 <= b < j ==> piles@[b].0@ != piles@[i as int].0@,
                decreases i - j,
            {
                if piles[j].0 == piles[i].0 {
                    proof {
                        assert(piles@[j as int].0@ == piles@[i as int].0@);
                    }
                    return Err(CardAPIError::AlreadyExists);
                }
                j = j + 1;
            }
            i = i + 1;
        }
        if !distinct_cards(&deck) {
            return Err(CardAPIError::CardAlreadyInCollection);
        }
        let mut i: usize = 0;
        while i < piles.len()
            invariant
                i <= piles@.len(),
                parts_names_unique(piles@),
                deck@.no_duplicates(),
                forall|a: int| 0 <= a < i ==> (#[trigger] piles@[a]).1@.no_duplicates(),
                forall|a: int| 0 <= a < i ==> disjoint_seqs(deck@, (#[trigger] piles@[a]).1@),
                forall|a: int, b: int|
                    0 <= a < b < i ==> disjoint_seqs(piles@[a].1@, piles@[b].1@),
            decreases piles@.len() - i,
        {
            if !distinct_cards(&piles[i].1) {
                return Err(CardAPIError::CardAlreadyInCollection);
            }
            if !vecs_disjoint(&deck, &piles[i].1) {
                return Err(CardAPIError::CardAlreadyInCollection);
            }
            let mut j: usize = 0;
            while j < i
                invariant
                    j <= i < piles@.len(),
                    parts_names_unique(piles@),
                    forall|a: int, b: int|
                        0 <= a < b < i ==> disjoint_seqs(piles@[a].1@, piles@[b].1@),
                    forall|b: int| 0 <= b < j ==> disjoint_seqs(piles@[b].1@, piles@[i as int].1@),
                decreases i - j,
            {
                if !vecs_disjoint(&piles[j].1, &piles[i].1) {
                    return Err(CardAPIError::CardAlreadyInCollection);
                }
                j = j + 1;
            }
            i = i + 1;
        }
        let ghost parts0 = piles@;
        let mut rest = piles;
        let mut named: Vec<NamedPile> = Vec::new();
        while rest.len() > 0
            invariant
                named@.len() + rest@.len() == parts0.len(),
                rest@ == parts0.subrange(named@.len() as int, parts0.len() as int),
                forall|k: int|
                    0 <= k < named@.len() ==> (#[trigger] named@[k]).name@ == parts0[k].0@
                        && named@[k].cards@ == parts0[k].1@,
            decreases rest@.len(),
        {
            let (name, cards) = rest.remove(0);
            named.push(NamedPile { name, cards: CardCollection::from_cards(cards) });
            proof {
                assert(rest@ =~= parts0.subrange(named@.len() as int, parts0.len() as int));
            }
        }
        let g = Game { id, deck: CardCollection::from_cards(deck), piles: named };
        proof {
            assert forall|a: int, b: int|
                0 <= a < b < g.spec_piles().len() implies g.spec_piles()[a].name@
                != g.spec_piles()[b].name@ by {
                assert(g.spec_piles()[a].name@ == parts0[a].0@);
                assert(g.spec_piles()[b].name@ == parts0[b].0@);
            };
            assert(piles_wf(g.spec_piles()));
            assert(piles_disjoint_from(g.spec_piles(), g.spec_deck()));
        }
        Ok(g)
    }

    /// Whether a pile of this name exists.
    pub fn has_pile(&self, name: &String) -> (r: bool)
        ensures
            r == self.has_pile_named(name@),
    {
        match find_pile_index(&self.piles, name) {
            Some(i) => {
                proof {
                    assert((#[trigger] self.spec_piles()[i as int]).name@ == name@);
                }
                true
            },
            None => false,
        }
    }

    /// Moves a selection from the deck into the pile at index `j`.
    fn draw_deck_to_pile(&mut self, j: usize, selection: &CardSelection)
        requires
            old(self).wf(),
            j < old(self).spec_piles().len(),
        ensures
            final(self).wf(),
            final(self).spec_id() == old(self).spec_id(),
            final(self).spec_piles().len() == old(self).spec_piles().len(),
            forall|k: int|
                0 <= k < old(self).spec_piles().len() && k != j ==> final(self).spec_piles()[k]
                    == old(self).spec_piles()[k],
            final(self).spec_piles()[j as int].name@ == old(self).spec_piles()[j as int].name@,
            final(self).total_cards() == old(self).total_cards(),
            final(self).spec_deck().to_multiset().add(
                final(self).spec_piles()[j as int].cards@.to_multiset(),
            ) == old(self).spec_deck().to_multiset().add(
                old(self).spec_piles()[j as int].cards@.to_multiset(),
            ),
            selection.is_deterministic() ==> final(self).spec_deck()
                == selection.spec_residual(old(self).spec_deck()) && final(self).spec_piles()[j as int].cards@ == old(self).spec_piles()[j as int].cards@
                + selection.spec_selected(old(self).spec_deck()),
            match *selection {
                CardSelection::All(_) => final(self).spec_deck().len() == 0,
                CardSelection::Random(n) => final(self).spec_piles()[j as int].cards@.len() == old(self).spec_piles()[j as int].cards@.len() + clamped(
                    n as int,
                    old(self).spec_deck().len() as int,
                ),
                _ => true,
            },
    {
        let ghost piles0 = old(self).spec_piles();
        let ghost deck0 = old(self).spec_deck();
        let mut p = self.piles.remove(j);
        proof {
            assert(piles0[j as int].cards@.no_duplicates());
            assert(disjoint_seqs(deck0, piles0[j as int].cards@));
        }
        let _moved = self.deck.draw(selection, &mut p.cards);
        self.piles.insert(j, p);
        proof {
            broadcast use vstd::multiset::group_multiset_axioms;

            let piles1 = self.spec_piles();
            let deck1 = self.spec_deck();
            let pj1 = piles1[j as int];
            assert(piles1 =~= piles0.update(j as int, pj1));
            lemma_exchange_deck_pile_wf(piles0, deck0, piles1, deck1, j as int);
            lemma_piles_multiset_update(piles0, j as int, pj1);
            assert forall|c: Card|
                deck1.to_multiset().add(piles_multiset(piles1)).count(c)
                    == deck0.to_multiset().add(piles_multiset(piles0)).count(c) by {
                assert(piles_multiset(piles0.update(j as int, pj1)).add(
                    piles0[j as int].cards@.to_multiset(),
                ).count(c) == piles_multiset(piles0).add(pj1.cards@.to_multiset()).count(c));
                assert(deck1.to_multiset().add(pj1.cards@.to_multiset()).count(c)
                    == deck0.to_multiset().add(piles0[j as int].cards@.to_multiset()).count(c));
            };
            assert(deck1.to_multiset().add(piles_multiset(piles1)) =~= deck0.to_multiset().add(
                piles_multiset(piles0),
            ));
        }
    }

    /// Moves a selection from the pile at index `i` into the deck.
    fn draw_pile_to_deck(&mut self, i: usize, selection: &CardSelection)
        requires
            old(self).wf(),
            i < old(self).spec_piles().len(),
        ensures
            final(self).wf(),
            final(self).spec_id() == old(self).spec_id(),
            final(self).spec_piles().len() == old(self).spec_piles().len(),
            forall|k: int|
                0 <= k < old(self).spec_piles().len() && k != i ==> final(self).spec_piles()[k]
                    == old(self).spec_piles()[k],
            final(self).spec_piles()[i as int].name@ == old(self).spec_piles()[i as int].name@,
            final(self).total_cards() == old(self).total_cards(),
            final(self).spec_piles()[i as int].cards@.to_multiset().add(
                final(self).spec_deck().to_multiset(),
            ) == old(self).spec_piles()[i as int].cards@.to_multiset().add(
                old(self).spec_deck().to_multiset(),
            ),
            selection.is_deterministic() ==> final(self).spec_piles()[i as int].cards@
                == selection.spec_residual(old(self).spec_piles()[i as int].cards@) && final(self).spec_deck() == old(self).spec_deck() + selection.spec_selected(
                old(self).spec_piles()[i as int].cards@,
            ),
            match *selection {
                CardSelection::All(_) => final(self).spec_piles()[i as int].cards@.len() == 0,
                CardSelection::Random(n) => final(self).spec_deck().len() == old(self).spec_deck().len() + clamped(
                    n as int,
                    old(self).spec_piles()[i as int].cards@.len() as int,
                ),
                _ => true,
            },
    {
        let ghost piles0 = old(self).spec_piles();
        let ghost deck0 = old(self).spec_deck();
        let mut p = self.piles.remove(i);
        proof {
            assert(piles0[i as int].cards@.no_duplicates());
            assert(disjoint_seqs(deck0, piles0[i as int].cards@));
            assert forall|x: Card| !(piles0[i as int].cards@.contains(x) && deck0.contains(
                x,
            )) by {
                assert(!(deck0.contains(x) && piles0[i as int].cards@.contains(x)));
            };
        }
        let _moved = p.cards.draw(selection, &mut self.deck);
        self.piles.insert(i, p);
        proof {
            broadcast use vstd::multiset::group_multiset_axioms;

            let piles1 = self.spec_piles();
            let deck1 = self.spec_deck();
            let pi1 = piles1[i as int];
            assert(piles1 =~= piles0.update(i as int, pi1));
            assert forall|x: Card| !(deck1.contains(x) && pi1.cards@.contains(x)) by {
                assert(!(pi1.cards@.contains(x) && deck1.contains(x)));
            };
            lemma_exchange_deck_pile_wf(piles0, deck0, piles1, deck1, i as int);
            lemma_piles_multiset_update(piles0, i as int, pi1);
            assert forall|c: Card|
                deck1.to_multiset().add(piles_multiset(piles1)).count(c)
                    == deck0.to_multiset().add(piles_multiset(piles0)).count(c) by {
                assert(piles_multiset(piles0.update(i as int, pi1)).add(
                    piles0[i as int].cards@.to_multiset(),
                ).count(c) == piles_multiset(piles0).add(pi1.cards@.to_multiset()).count(c));
                assert(pi1.cards@.to_multiset().add(deck1.to_multiset()).count(c)
                    == piles0[i as int].cards@.to_multiset().add(deck0.to_multiset()).count(c));
            };
            assert(deck1.to_multiset().add(piles_multiset(piles1)) =~= deck0.to_multiset().add(
                piles_multiset(piles0),
            ));
        }
    }

    /// Moves a selection from the pile at index `i` into the pile at
    /// index `j`.
    fn draw_pile_to_pile(&mut self, i: usize, j: usize, selection: &CardSelection)
        requires
            old(self).wf(),
            i < old(self).spec_piles().len(),
            j < old(self).spec_piles().len(),
            i != j,
        ensures
            final(self).wf(),
            final(self).spec_id() == old(self).spec_id(),
            final(self).spec_deck() == old(self).spec_deck(),
            final(self).spec_piles().len() == old(self).spec_piles().len(),
            forall|k: int|
                0 <= k < old(self).spec_piles().len() && k != i && k != j ==> final(self).spec_piles()[k] == old(self).spec_piles()[k],
            final(self).spec_piles()[i as int].name@ == old(self).spec_piles()[i as int].name@,
            final(self).spec_piles()[j as int].name@ == old(self).spec_piles()[j as int].name@,
            final(self).total_cards() == old(self).total_cards(),
            final(self).spec_piles()[i as int].cards@.to_multiset().add(
                final(self).spec_piles()[j as int].cards@.to_multiset(),
            ) == old(self).spec_piles()[i as int].cards@.to_multiset().add(
                old(self).spec_piles()[j as int].cards@.to_multiset(),
            ),
            selection.is_deterministic() ==> final(self).spec_piles()[i as int].cards@
                == selection.spec_residual(old(self).spec_piles()[i as int].cards@) && final(self).spec_piles()[j as int].cards@ == old(self).spec_piles()[j as int].cards@
                + selection.spec_selected(old(self).spec_piles()[i as int].cards@),
            match *selection {
                CardSelection::All(_) => final(self).spec_piles()[i as int].cards@.len() == 0,
                CardSelection::Random(n) => final(self).spec_piles()[j as int].cards@.len() == old(self).spec_piles()[j as int].cards@.len() + clamped(
                    n as int,
                    old(self).spec_piles()[i as int].cards@.len() as int,
                ),
                _ => true,
            },
    {
        let ghost piles0 = old(self).spec_piles();
        let ghost deck0 = old(self).spec_deck();
        proof {
            assert(piles0[i as int].cards@.no_duplicates());
            assert(piles0[j as int].cards@.no_duplicates());
            lemma_disjoint_pair(piles0, i as int, j as int);
        }
        if i < j {
            let mut pj = self.piles.remove(j);
            let mut pi = self.piles.remove(i);
            let _moved = pi.cards.draw(selection, &mut pj.cards);
            self.piles.insert(i, pi);
            self.piles.insert(j, pj);
        } else {
            let mut pi = self.piles.remove(i);
            let mut pj = self.piles.remove(j);
            let _moved = pi.cards.draw(selection, &mut pj.cards);
            self.piles.insert(j, pj);
            self.piles.insert(i, pi);
        }
        proof {
            broadcast use vstd::multiset::group_multiset_axioms;

            let piles1 = self.spec_piles();
            let pi1 = piles1[i as int];
            let pj1 = piles1[j as int];
            let u1 = piles0.update(i as int, pi1);
            assert(piles1 =~= u1.update(j as int, pj1));
            lemma_exchange_two_piles_wf(piles0, deck0, piles1, i as int, j as int);
            lemma_piles_multiset_update(piles0, i as int, pi1);
            lemma_piles_multiset_update(u1, j as int, pj1);
            assert(u1[j as int] == piles0[j as int]);
            assert forall|c: Card|
                deck0.to_multiset().add(piles_multiset(piles1)).count(c)
                    == deck0.to_multiset().add(piles_multiset(piles0)).count(c) by {
                assert(piles_multiset(u1).add(piles0[i as int].cards@.to_multiset()).count(c)
                    == piles_multiset(piles0).add(pi1.cards@.to_multiset()).count(c));
                assert(piles_multiset(u1.update(j as int, pj1)).add(
                    u1[j as int].cards@.to_multiset(),
                ).count(c) == piles_multiset(u1).add(pj1.cards@.to_multiset()).count(c));
                assert(pi1.cards@.to_multiset().add(pj1.cards@.to_multiset()).count(c)
                    == piles0[i as int].cards@.to_multiset().add(
                    piles0[j as int].cards@.to_multiset(),
                ).count(c));
            };
            assert(deck0.to_multiset().add(piles_multiset(piles1)) =~= deck0.to_multiset().add(
                piles_multiset(piles0),
            ));
        }
    }

    /// Draws between two named collections: validates that both exist,
    /// resolves the selection against the source, removes the picked
    /// cards there and appends them to the target, atomically from the
    /// caller's view. Fails with `NotFound`, changing nothing, exactly
    /// when a named pile does not exist. A draw from a collection into
    /// itself is a defined no-op.
    pub fn draw(
        &mut self,
        from: CollectionType,
        to: CollectionType,
        selection: &CardSelection,
    ) -> (r: Result<(), CardAPIError>)
        requires
            old(self).wf(),
        ensures
            final(self).wf(),
            final(self).spec_id() == old(self).spec_id(),
            final(self).spec_piles().len() == old(self).spec_piles().len(),
            forall|k: int|
                0 <= k < old(self).spec_piles().len() ==> final(self).spec_piles()[k].name@ == old(
                    self,
                ).spec_piles()[k].name@,
            final(self).total_cards() == old(self).total_cards(),
            match r {
                Err(e) => {
                    &&& e == CardAPIError::NotFound
                    &&& !(old(self).resolves(&from) && old(self).resolves(&to))
                    &&& *final(self) == *old(self)
                },
                Ok(()) => {
                    &&& old(self).resolves(&from)
                    &&& old(self).resolves(&to)
                    &&& Game::same_collection(&from, &to) ==> *final(self) == *old(self)
                    &&& !Game::same_collection(&from, &to) ==> {
                        &&& final(self).collection_of(&from).to_multiset().add(
                            final(self).collection_of(&to).to_multiset(),
                        ) == old(self).collection_of(&from).to_multiset().add(
                            old(self).collection_of(&to).to_multiset(),
                        )
                        &&& selection.is_deterministic() ==> final(self).collection_of(&from)
                            == selection.spec_residual(old(self).collection_of(&from))
                        &&& selection.is_deterministic() ==> final(self).collection_of(&to) == old(
                            self,
                        ).collection_of(&to) + selection.spec_selected(
                            old(self).collection_of(&from),
                        )
                        &&& match *selection {
                            CardSelection::All(_) => final(self).collection_of(&from).len() == 0,
                            CardSelection::Random(n) => final(self).collection_of(&to).len()
                                == old(self).collection_of(&to).len() + clamped(
                                n as int,
                                old(self).collection_of(&from).len() as int,
                            ),
                            _ => true,
                        }
                        &&& forall|k: int|
                            0 <= k < old(self).spec_piles().len() && !old(self).names_index(
                                &from,
                                k,
                            ) && !old(self).names_index(&to, k) ==> final(self).spec_piles()[k]
                                == old(self).spec_piles()[k]
                        &&& (!(from is Deck) && !(to is Deck)) ==> final(self).spec_deck() == old(
                            self,
                        ).spec_deck()
                    }
                },
            },
    {
        match (&from, &to) {
            (CollectionType::Deck, CollectionType::Deck) => Ok(()),
            (CollectionType::Deck, CollectionType::Pile(t)) => {
                match find_pile_index(&self.piles, t) {
                    None => Err(CardAPIError::NotFound),
                    Some(j) => {
                        proof {
                            lemma_pile_index_is(self.spec_piles(), t@, j as int);
                        }
                        self.draw_deck_to_pile(j, selection);
                        proof {
                            lemma_pile_index_is(self.spec_piles(), t@, j as int);
                        }
                        Ok(())
                    },
                }
            },
            (CollectionType::Pile(s), CollectionType::Deck) => {
                match find_pile_index(&self.piles, s) {
                    None => Err(CardAPIError::NotFound),
                    Some(i) => {
                        proof {
                            lemma_pile_index_is(self.spec_piles(), s@, i as int);
                        }
                        self.draw_pile_to_deck(i, selection);
                        proof {
                            lemma_pile_index_is(self.spec_piles(), s@, i as int);
                        }
                        Ok(())
                    },
                }
            },
            (CollectionType::Pile(s), CollectionType::Pile(t)) => {
                if *s == *t {
                    match find_pile_index(&self.piles, s) {
                        None => Err(CardAPIError::NotFound),
                        Some(i) => {
                            proof {
                                assert((#[trigger] self.spec_piles()[i as int]).name@ == s@);
                            }
                            Ok(())
                        },
                    }
                } else {
                    let oi = find_pile_index(&self.piles, s);
                    let oj = find_pile_index(&self.piles, t);
                    match (oi, oj) {
                        (Some(i), Some(j)) => {
                            proof {
                                lemma_pile_index_is(self.spec_piles(), s@, i as int);
                                lemma_pile_index_is(self.spec_piles(), t@, j as int);
                                assert(i != j);
                            }
                            self.draw_pile_to_pile(i, j, selection);
                            proof {
                                lemma_pile_index_is(self.spec_piles(), s@, i as int);
                                lemma_pile_index_is(self.spec_piles(), t@, j as int);
                            }
                            Ok(())
                        },
                        _ => Err(CardAPIError::NotFound),
                    }
                }
            },
        }
    }

    /// The pile of this name, if any.
    pub fn get_pile(&self, name: &String) -> (r: Option<&CardCollection>)
        ensures
            match r {
                Some(cc) => exists|i: int|
                    0 <= i < self.spec_piles().len() && (#[trigger] self.spec_piles()[i]).name@
                        == name@ && cc@ == self.spec_piles()[i].cards@,
                None => !self.has_pile_named(name@),
            },
    {
        match find_pile_index(&self.piles, name) {
            Some(i) => {
                let cc = &self.piles[i].cards;
                proof {
                    assert((#[trigger] self.spec_piles()[i as int]).name@ == name@ && cc@
                        == self.spec_piles()[i as int].cards@);
                }
                Some(cc)
            },
            None => None,
        }
    }
}

/// Whether stored pile parts carry pairwise distinct names.
pub open spec fn parts_names_unique(piles: Seq<(String, Vec<Card>)>) -> bool {
    forall|a: int, b: int| 0 <= a < b < piles.len() ==> piles[a].0@ != piles[b].0@
}

/// Whether stored parts form a consistent game: unique pile names, no
/// duplicate card anywhere, and no card in two collections.
pub open spec fn parts_wf(deck: Seq<Card>, piles: Seq<(String, Vec<Card>)>) -> bool {
    &&& parts_names_unique(piles)
    &&& deck.no_duplicates()
    &&& forall|a: int| 0 <= a < piles.len() ==> (#[trigger] piles[a]).1@.no_duplicates()
    &&& forall|a: int| 0 <= a < piles.len() ==> disjoint_seqs(deck, (#[trigger] piles[a]).1@)
    &&& forall|a: int, b: int| 0 <= a < b < piles.len() ==> disjoint_seqs(piles[a].1@, piles[b].1@)
}

/// After trading cards between the deck and one pile, the game's parts
/// are still duplicate-free and pairwise disjoint, provided the two new
/// collections are so between themselves and drew only from the two old
/// ones.
proof fn lemma_exchange_deck_pile_wf(
    piles0: Seq<NamedPile>,
    deck0: Seq<Card>,
    piles1: Seq<NamedPile>,
    deck1: Seq<Card>,
    j: int,
)
    requires
        piles_wf(piles0),
        piles_disjoint_from(piles0, deck0),
        deck0.no_duplicates(),
        0 <= j < piles0.len(),
        piles1.len() == piles0.len(),
        forall|k: int| 0 <= k < piles0.len() && k != j ==> piles1[k] == piles0[k],
        piles1[j].name@ == piles0[j].name@,
        deck1.no_duplicates(),
        piles1[j].cards@.no_duplicates(),
        disjoint_seqs(deck1, piles1[j].cards@),
        forall|c: Card| deck1.contains(c) ==> deck0.contains(c) || piles0[j].cards@.contains(c),
        forall|c: Card|
            piles1[j].cards@.contains(c) ==> deck0.contains(c) || piles0[j].cards@.contains(c),
    ensures
        piles_wf(piles1),
        piles_disjoint_from(piles1, deck1),
{
    assert forall|a: int| 0 <= a < piles1.len() implies (#[trigger] piles1[a]).cards@
        .no_duplicates() by {
        if a != j {
            assert(piles1[a] == piles0[a]);
        }
    };
    assert forall|a: int, b: int|
        0 <= a < b < piles1.len() implies piles1[a].name@ != piles1[b].name@ by {
        if a != j {
            assert(piles1[a] == piles0[a]);
        }
        if b != j {
            assert(piles1[b] == piles0[b]);
        }
    };
    assert forall|a: int, b: int|
        0 <= a < b < piles1.len() implies disjoint_seqs(piles1[a].cards@, piles1[b].cards@) by {
        if a != j && b != j {
            assert(piles1[a] == piles0[a]);
            assert(piles1[b] == piles0[b]);
            assert(disjoint_seqs(piles0[a].cards@, piles0[b].cards@));
        } else {
            let o = if a == j {
                b
            } else {
                a
            };
            assert(piles1[o] == piles0[o]);
            assert(disjoint_seqs(deck0, piles0[o].cards@));
            if o < j {
                assert(disjoint_seqs(piles0[o].cards@, piles0[j].cards@));
            } else {
                assert(disjoint_seqs(piles0[j].cards@, piles0[o].cards@));
            }
            assert forall|x: Card|
                !(piles1[a].cards@.contains(x) && piles1[b].cards@.contains(x)) by {
                if piles1[j].cards@.contains(x) {
                    assert(deck0.contains(x) || piles0[j].cards@.contains(x));
                }
            };
        }
    };
    assert forall|a: int| 0 <= a < piles1.len() implies disjoint_seqs(
        deck1,
        (#[trigger] piles1[a]).cards@,
    ) by {
        if a != j {
            assert(piles1[a] == piles0[a]);
            assert(disjoint_seqs(deck0, piles0[a].cards@));
            if a < j {
                assert(disjoint_seqs(piles0[a].cards@, piles0[j].cards@));
            } else {
                assert(disjoint_seqs(piles0[j].cards@, piles0[a].cards@));
            }
            assert forall|x: Card| !(deck1.contains(x) && piles1[a].cards@.contains(x)) by {
                if deck1.contains(x) {
                    assert(deck0.contains(x) || piles0[j].cards@.contains(x));
                }
            };
        }
    };
}

/// The same for a trade between two piles, the deck untouched.
proof fn lemma_exchange_two_piles_wf(
    piles0: Seq<NamedPile>,
    deck0: Seq<Card>,
    piles1: Seq<NamedPile>,
    i: int,
    j: int,
)
    requires
        piles_wf(piles0),
        piles_disjoint_from(piles0, deck0),
        0 <= i < piles0.len(),
        0 <= j < piles0.len(),
        i != j,
        piles1.len() == piles0.len(),
        forall|k: int| 0 <= k < piles0.len() && k != i && k != j ==> piles1[k] == piles0[k],
        piles1[i].name@ == piles0[i].name@,
        piles1[j].name@ == piles0[j].name@,
        piles1[i].cards@.no_duplicates(),
        piles1[j].cards@.no_duplicates(),
        disjoint_seqs(piles1[i].cards@, piles1[j].cards@),
        forall|c: Card|
            piles1[i].cards@.contains(c) ==> piles0[i].cards@.contains(c)
                || piles0[j].cards@.contains(c),
        forall|c: Card|
            piles1[j].cards@.contains(c) ==> piles0[i].cards@.contains(c)
                || piles0[j].cards@.contains(c),
    ensures
        piles_wf(piles1),
        piles_disjoint_from(piles1, deck0),
{
    assert forall|a: int| 0 <= a < piles1.len() implies (#[trigger] piles1[a]).cards@
        .no_duplicates() by {
        if a != i && a != j {
            assert(piles1[a] == piles0[a]);
        }
    };
    assert forall|a: int, b: int|
        0 <= a < b < piles1.len() implies piles1[a].name@ != piles1[b].name@ by {
        if a != i && a != j {
            assert(piles1[a] == piles0[a]);
        }
        if b != i && b != j {
            assert(piles1[b] == piles0[b]);
        }
    };
    assert forall|a: int, b: int|
        0 <= a < b < piles1.len() implies disjoint_seqs(piles1[a].cards@, piles1[b].cards@) by {
        if (a == i || a == j) && (b == i || b == j) {
            assert(disjoint_seqs(piles1[i].cards@, piles1[j].cards@));
        } else if a == i || a == j || b == i || b == j {
            let o = if a == i || a == j {
                b
            } else {
                a
            };
            let m = if a == i || a == j {
                a
            } else {
                b
            };
            assert(piles1[o] == piles0[o]);
            lemma_disjoint_pair(piles0, i, o);
            lemma_disjoint_pair(piles0, j, o);
            assert forall|x: Card|
                !(piles1[a].cards@.contains(x) && piles1[b].cards@.contains(x)) by {
                if piles1[m].cards@.contains(x) {
                    assert(piles0[i].cards@.contains(x) || piles0[j].cards@.contains(x));
                }
            };
        } else {
            assert(piles1[a] == piles0[a]);
            assert(piles1[b] == piles0[b]);
            assert(disjoint_seqs(piles0[a].cards@, piles0[b].cards@));
        }
    };
    assert forall|a: int| 0 <= a < piles1.len() implies disjoint_seqs(
        deck0,
        (#[trigger] piles1[a]).cards@,
    ) by {
        if a == i || a == j {
            assert(disjoint_seqs(deck0, piles0[i].cards@));
            assert(disjoint_seqs(deck0, piles0[j].cards@));
            assert forall|x: Card| !(deck0.contains(x) && piles1[a].cards@.contains(x)) by {
                if piles1[a].cards@.contains(x) {
                    assert(piles0[i].cards@.contains(x) || piles0[j].cards@.contains(x));
                }
            };
        } else {
            assert(piles1[a] == piles0[a]);
            assert(disjoint_seqs(deck0, piles0[a].cards@));
        }
    };
}

/// Two distinct piles of a well-formed map share no card, whichever
/// order their indices come in.
proof fn lemma_disjoint_pair(piles: Seq<NamedPile>, a: int, b: int)
    requires
        piles_wf(piles),
        0 <= a < piles.len(),
        0 <= b < piles.len(),
        a != b,
    ensures
        disjoint_seqs(piles[a].cards@, piles[b].cards@),
{
    if a < b {
        assert(disjoint_seqs(piles[a].cards@, piles[b].cards@));
    } else {
        assert(disjoint_seqs(piles[b].cards@, piles[a].cards@));
        assert forall|x: Card| !(piles[a].cards@.contains(x) && piles[b].cards@.contains(x)) by {
            assert(!(piles[b].cards@.contains(x) && piles[a].cards@.contains(x)));
        };
    }
}

/// Appending a pile with no cards leaves a pile map's total unchanged.
proof fn lemma_piles_multiset_push_empty(piles0: Seq<NamedPile>, piles1: Seq<NamedPile>)
    requires
        piles1.len() == piles0.len() + 1,
        forall|i: int| 0 <= i < piles0.len() ==> piles1[i] == piles0[i],
        piles1.last().cards@ == Seq::<Card>::empty(),
    ensures
        piles_multiset(piles1) == piles_multiset(piles0),
    decreases piles0.len(),
{
    broadcast use vstd::multiset::group_multiset_axioms;
    broadcast use vstd::seq_lib::group_to_multiset_ensures;

    if piles0.len() == 0 {
        assert(piles1.len() == 1);
        assert(piles1.drop_first() =~= Seq::<NamedPile>::empty());
        assert(piles_multiset(piles1.drop_first()) == Multiset::<Card>::empty());
        assert(piles_multiset(piles0) == Multiset::<Card>::empty());
        assert(piles1[0].cards@.to_multiset().len() == 0);
        assert forall|c: Card|
            piles_multiset(piles1).count(c) == piles_multiset(piles0).count(c) by {
            assert(piles_multiset(piles1).count(c) == piles1[0].cards@.to_multiset().count(c)
                + piles_multiset(piles1.drop_first()).count(c));
        };
        assert(piles_multiset(piles1) =~= piles_multiset(piles0));
    } else {
        lemma_piles_multiset_push_empty(piles0.drop_first(), piles1.drop_first());
        assert(piles1.drop_first().last() == piles1.last());
        assert(piles1[0] == piles0[0]);
    }
}

} // verus!
