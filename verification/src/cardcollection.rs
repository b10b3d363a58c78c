//! An ordered, duplicate-free collection of cards: a deck or a pile,
//! with selection-based extraction and the two-sided draw.

use vstd::multiset::Multiset;
use vstd::prelude::*;

use crate::all_cards::all_cards;
use crate::card::Card;
use crate::cardselection::{clamped, contains_card, split_by_list, CardSelection};
use crate::errors::CardAPIError;
use crate::seq_facts::{
    disjoint_seqs, in_list_pred, lemma_append_multiset, lemma_append_no_dup,
    lemma_filter_identity, not_pred,
};

verus! {

/// An ordered sequence of cards treated as a stack: the end of the
/// sequence is the top, the start the bottom. A well-formed collection
/// holds no card twice.
#[derive(Debug, Clone)]
pub struct CardCollection {
    cards: Vec<Card>,
}

impl View for CardCollection {
    type V = Seq<Card>;

    closed spec fn view(&self) -> Seq<Card> {
        self.cards@
    }
}

impl CardCollection {
    /// Well-formed: no card appears twice.
    pub open spec fn wf(&self) -> bool {
        self@.no_duplicates()
    }

    /// An empty collection.
    pub fn new() -> (r: CardCollection)
        ensures
            r@ == Seq::<Card>::empty(),
            r.wf(),
    {
        CardCollection { cards: Vec::new() }
    }

    /// A collection holding what `selection` picks from a full
    /// canonical deck.
    pub fn from_selection(selection: CardSelection) -> (r: CardCollection)
        ensures
            r.wf(),
            forall|c: Card| r@.contains(c) ==> all_cards().contains(c),
            selection.is_deterministic() ==> r@ == selection.spec_selected(all_cards()),
            match selection {
                CardSelection::All(_) => r@.to_multiset() == all_cards().to_multiset(),
                CardSelection::Random(n) => r@.len() == clamped(n as int, 52),
                _ => true,
            },
    {
        CardCollection { cards: CardSelection::from_all(selection) }
    }

    /// A collection holding exactly `cards`, in their order.
    pub(crate) fn from_cards(cards: Vec<Card>) -> (r: CardCollection)
        ensures
            r@ == cards@,
    {
        CardCollection { cards }
    }

    /// How many cards remain.
    pub fn remaining(&self) -> (r: usize)
        ensures
            r == self@.len(),
    {
        self.cards.len()
    }

    /// Whether the collection holds `c`.
    pub fn contains(&self, c: &Card) -> (r: bool)
        ensures
            r == self@.contains(*c),
    {
        contains_card(&self.cards, *c)
    }

    /// Whether the collection holds none of `cards`' cards.
    pub fn contains_none(&self, cards: &CardCollection) -> (r: bool)
        ensures
            r == disjoint_seqs(self@, cards@),
    {
        let mut i: usize = 0;
        while i < cards.cards.len()
            invariant
                i <= cards@.len(),
                forall|k: int| 0 <= k < i ==> !self@.contains(cards@[k]),
            decreases cards@.len() - i,
        {
            if contains_card(&self.cards, cards.cards[i]) {
                return false;
            }
            i = i + 1;
        }
        proof {
            assert forall|x: Card| !(self@.contains(x) && cards@.contains(x)) by {
                if cards@.contains(x) {
                    let k = choose|k: int| 0 <= k < cards@.len() && cards@[k] == x;
                    assert(!self@.contains(cards@[k]));
                }
            };
        }
        true
    }

    /// Whether the collection holds every one of `cards`' cards.
    pub fn contains_all(&self, cards: &CardCollection) -> (r: bool)
        ensures
            r == forall|c: Card| cards@.contains(c) ==> self@.contains(c),
    {
        let mut i: usize = 0;
        while i < cards.cards.len()
            invariant
                i <= cards@.len(),
                forall|k: int| 0 <= k < i ==> self@.contains(cards@[k]),
            decreases cards@.len() - i,
        {
            if !contains_card(&self.cards, cards.cards[i]) {
                proof {
                    assert(cards@.contains(cards@[i as int]));
                }
                return false;
            }
            i = i + 1;
        }
        proof {
            assert forall|c: Card| cards@.contains(c) implies self@.contains(c) by {
                let k = choose|k: int| 0 <= k < cards@.len() && cards@[k] == c;
                assert(self@.contains(cards@[k]));
            };
        }
        true
    }

    /// The card at a position, counted from the bottom.
    pub fn get(&self, i: usize) -> (r: &Card)
        requires
            i < self@.len(),
        ensures
            *r == self@[i as int],
    {
        &self.cards[i]
    }

    /// The cards `selection` picks, leaving the collection unchanged.
    pub fn select(&self, selection: CardSelection) -> (r: Vec<Card>)
        requires
            self.wf(),
        ensures
            r@.no_duplicates(),
            forall|c: Card| r@.contains(c) ==> self@.contains(c),
            selection.is_deterministic() ==> r@ == selection.spec_selected(self@),
            match selection {
                CardSelection::All(_) => r@.to_multiset() == self@.to_multiset(),
                CardSelection::Random(n) => r@.len() == clamped(n as int, self@.len() as int),
                _ => true,
            },
    {
        CardSelection::filter_cards(&self.cards, selection)
    }

    /// Removes the listed cards, by value; the order of the cards that
    /// stay is preserved.
    fn remove(&mut self, cards: &Vec<Card>)
        ensures
            final(self)@ == old(self)@.filter(not_pred(in_list_pred(cards@))),
    {
        let pair = split_by_list(&self.cards, cards);
        self.cards = pair.1;
    }

    /// Appends `cards` on top, first removing any of them already
    /// present, so that re-adding a card never duplicates it.
    pub fn add(&mut self, cards: Vec<Card>)
        ensures
            final(self)@ == old(self)@.filter(not_pred(in_list_pred(cards@))) + cards@,
    {
        self.remove(&cards);
        let mut incoming = cards;
        self.cards.append(&mut incoming);
    }

    /// Draws from this collection into `into`: removes what `selection`
    /// picks and appends it on top of `into`, atomically from the
    /// caller's view. Numeric selections clamp to the available count,
    /// so a draw never fails.
    pub fn draw(&mut self, selection: &CardSelection, into: &mut CardCollection) -> (r: Result<
        (),
        CardAPIError,
    >)
        requires
            old(self).wf(),
            old(into).wf(),
            disjoint_seqs(old(self)@, old(into)@),
        ensures
            r is Ok,
            final(self).wf(),
            final(into).wf(),
            disjoint_seqs(final(self)@, final(into)@),
            final(self)@.to_multiset().add(final(into)@.to_multiset()) == old(
                self,
            )@.to_multiset().add(old(into)@.to_multiset()),
            forall|c: Card| final(self)@.contains(c) ==> old(self)@.contains(c),
            forall|c: Card|
                final(into)@.contains(c) ==> old(self)@.contains(c) || old(into)@.contains(c),
            forall|c: Card| old(into)@.contains(c) ==> final(into)@.contains(c),
            selection.is_deterministic() ==> final(self)@ == selection.spec_residual(old(self)@)
                && final(into)@ == old(into)@ + selection.spec_selected(old(self)@),
            match *selection {
                CardSelection::All(_) => final(self)@.len() == 0,
                CardSelection::Random(n) => final(into)@.len() == old(into)@.len() + clamped(
                    n as int,
                    old(self)@.len() as int,
                ),
                _ => true,
            },
    {
        let ghost src0 = self@;
        let ghost dst0 = into@;
        let pair = selection.split_cards(&self.cards);
        let sel = pair.0;
        let rest = pair.1;
        self.cards = rest;
        proof {
            assert forall|i: int| 0 <= i < dst0.len() implies not_pred(in_list_pred(sel@))(
                dst0[i],
            ) by {
                assert(dst0.contains(dst0[i]));
                if sel@.contains(dst0[i]) {
                    assert(src0.contains(dst0[i]));
                }
            };
            lemma_filter_identity(dst0, not_pred(in_list_pred(sel@)));
        }
        into.add(sel);
        proof {
            broadcast use vstd::multiset::group_multiset_axioms;

            lemma_append_multiset(dst0, pair.0@);
            lemma_append_no_dup(dst0, pair.0@);
            assert(self@.to_multiset().add(into@.to_multiset()) =~= src0.to_multiset().add(
                dst0.to_multiset(),
            ));
            assert forall|c: Card| into@.contains(c) implies src0.contains(c) || dst0.contains(
                c,
            ) by {
                let k = choose|k: int| 0 <= k < into@.len() && into@[k] == c;
                if k < dst0.len() {
                    assert(dst0[k] == c);
                    assert(dst0.contains(c));
                } else {
                    assert(pair.0@[k - dst0.len()] == c);
                    assert(pair.0@.contains(c));
                }
            };
            assert forall|c: Card| dst0.contains(c) implies into@.contains(c) by {
                let k = choose|k: int| 0 <= k < dst0.len() && dst0[k] == c;
                assert(into@[k] == c);
            };
            assert forall|c: Card| !(self@.contains(c) && into@.contains(c)) by {
                if self@.contains(c) && into@.contains(c) {
                    assert(src0.contains(c));
                }
            };
        }
        Ok(())
    }
}

/// A collection under a name: one entry of a deck's or game's pile map.
#[derive(Debug)]
pub struct NamedPile {
    pub name: String,
    pub cards: CardCollection,
}

/// Well-formed pile map: every pile duplicate-free, names unique, and
/// no card in two piles.
pub open spec fn piles_wf(piles: Seq<NamedPile>) -> bool {
    &&& forall|i: int| 0 <= i < piles.len() ==> (#[trigger] piles[i]).cards@.no_duplicates()
    &&& forall|i: int, j: int|
        0 <= i < j < piles.len() ==> piles[i].name@ != piles[j].name@
    &&& forall|i: int, j: int|
        0 <= i < j < piles.len() ==> disjoint_seqs(piles[i].cards@, piles[j].cards@)
}

/// No pile of the map shares a card with `deck`.
pub open spec fn piles_disjoint_from(piles: Seq<NamedPile>, deck: Seq<Card>) -> bool {
    forall|i: int| 0 <= i < piles.len() ==> disjoint_seqs(deck, (#[trigger] piles[i]).cards@)
}

/// Whether some pile of the map is named `name`.
pub open spec fn pile_named(piles: Seq<NamedPile>, name: Seq<char>) -> bool {
    exists|i: int| 0 <= i < piles.len() && (#[trigger] piles[i]).name@ == name
}

/// The index of the pile named `name`.
pub open spec fn pile_index_of(piles: Seq<NamedPile>, name: Seq<char>) -> int {
    choose|i: int| 0 <= i < piles.len() && (#[trigger] piles[i]).name@ == name
}

/// The cards of a pile map, counted together.
pub open spec fn piles_multiset(piles: Seq<NamedPile>) -> Multiset<Card>
    decreases piles.len(),
{
    if piles.len() == 0 {
        Multiset::empty()
    } else {
        piles[0].cards@.to_multiset().add(piles_multiset(piles.drop_first()))
    }
}

/// Replacing one pile of the map trades exactly its cards for the new
/// pile's cards in the map's total.
pub proof fn lemma_piles_multiset_update(piles: Seq<NamedPile>, i: int, p: NamedPile)
    requires
        0 <= i < piles.len(),
    ensures
        piles_multiset(piles.update(i, p)).add(piles[i].cards@.to_multiset()) == piles_multiset(
            piles,
        ).add(p.cards@.to_multiset()),
    decreases piles.len(),
{
    broadcast use vstd::multiset::group_multiset_axioms;

    let upd = piles.update(i, p);
    if i == 0 {
        assert(upd.drop_first() =~= piles.drop_first());
        assert(piles_multiset(upd).add(piles[0].cards@.to_multiset()) =~= piles_multiset(
            piles,
        ).add(p.cards@.to_multiset()));
    } else {
        lemma_piles_multiset_update(piles.drop_first(), i - 1, p);
        assert(upd.drop_first() =~= piles.drop_first().update(i - 1, p));
        assert(upd[0] == piles[0]);
        assert forall|c: Card|
            piles_multiset(upd).add(piles[i].cards@.to_multiset()).count(c) == piles_multiset(
                piles,
            ).add(p.cards@.to_multiset()).count(c) by {
            assert(piles.drop_first()[i - 1] == piles[i]);
            let ihl = piles_multiset(piles.drop_first().update(i - 1, p)).add(
                piles.drop_first()[i - 1].cards@.to_multiset(),
            );
            let ihr = piles_multiset(piles.drop_first()).add(p.cards@.to_multiset());
            assert(ihl.count(c) == ihr.count(c));
            assert(piles_multiset(upd) == upd[0].cards@.to_multiset().add(
                piles_multiset(upd.drop_first()),
            ));
            assert(piles_multiset(piles) == piles[0].cards@.to_multiset().add(
                piles_multiset(piles.drop_first()),
            ));
        };
        assert(piles_multiset(upd).add(piles[i].cards@.to_multiset()) =~= piles_multiset(
            piles,
        ).add(p.cards@.to_multiset()));
    }
}

/// Under unique names, any matching index is the pile's index.
pub proof fn lemma_pile_index_is(piles: Seq<NamedPile>, name: Seq<char>, i: int)
    requires
        piles_wf(piles),
        0 <= i < piles.len(),
        piles[i].name@ == name,
    ensures
        pile_named(piles, name),
        pile_index_of(piles, name) == i,
{
    assert((#[trigger] piles[i]).name@ == name);
    let k = pile_index_of(piles, name);
    assert(0 <= k < piles.len() && piles[k].name@ == name);
}

/// Appending an empty pile under an unused name keeps a pile map
/// well-formed and disjoint from the deck.
pub proof fn lemma_push_empty_pile_wf(
    piles0: Seq<NamedPile>,
    piles1: Seq<NamedPile>,
    deck: Seq<Card>,
)
    requires
        piles_wf(piles0),
        piles_disjoint_from(piles0, deck),
        piles1.len() == piles0.len() + 1,
        forall|i: int| 0 <= i < piles0.len() ==> piles1[i] == piles0[i],
        piles1.last().cards@ == Seq::<Card>::empty(),
        !pile_named(piles0, piles1.last().name@),
    ensures
        piles_wf(piles1),
        piles_disjoint_from(piles1, deck),
{
    let n = piles0.len() as int;
    assert forall|i: int, j: int|
        0 <= i < j < piles1.len() implies piles1[i].name@ != piles1[j].name@ by {
        if j == n {
            assert(piles1[i] == piles0[i]);
        }
    };
    assert forall|i: int, j: int|
        0 <= i < j < piles1.len() implies disjoint_seqs(piles1[i].cards@, piles1[j].cards@) by {
        if j == n {
            assert forall|x: Card| !(piles1[i].cards@.contains(x) && piles1[j].cards@.contains(
                x,
            )) by {
                assert(piles1[j].cards@.len() == 0);
            };
        }
    };
    assert forall|i: int| 0 <= i < piles1.len() implies disjoint_seqs(
        deck,
        (#[trigger] piles1[i]).cards@,
    ) by {
        if i == n {
            assert forall|x: Card| !(deck.contains(x) && piles1[i].cards@.contains(x)) by {
                assert(piles1[i].cards@.len() == 0);
            };
        }
    };
}

/// Whether `v` holds no card twice.
pub(crate) fn distinct_cards(v: &Vec<Card>) -> (r: bool)
    ensures
        r == v@.no_duplicates(),
{
    let mut i: usize = 0;
    while i < v.len()
        invariant
            i <= v@.len(),
            forall|a: int, b: int| 0 <= a < b < i ==> v@[a] != v@[b],
        decreases v@.len() - i,
    {
        let mut j: usize = 0;
        while j < i
            invariant
                j <= i < v@.len(),
                forall|a: int, b: int| 0 <= a < b < i ==> v@[a] != v@[b],
                forall|b: int| 0 <= b < j ==> v@[b] != v@[i as int],
            decreases i - j,
        {
            if v[j] == v[i] {
                proof {
                    assert(v@[j as int] == v@[i as int]);
                }
                return false;
            }
            j = j + 1;
        }
        i = i + 1;
    }
    true
}

/// Whether `a` and `b` share no card.
pub(crate) fn vecs_disjoint(a: &Vec<Card>, b: &Vec<Card>) -> (r: bool)
    ensures
        r == disjoint_seqs(a@, b@),
{
    let mut i: usize = 0;
    while i < a.len()
        invariant
            i <= a@.len(),
            forall|k: int| 0 <= k < i ==> !b@.contains(a@[k]),
        decreases a@.len() - i,
    {
        if contains_card(b, a[i]) {
            return false;
        }
        i = i + 1;
    }
    proof {
        assert forall|x: Card| !(a@.contains(x) && b@.contains(x)) by {
            if a@.contains(x) {
                let k = choose|k: int| 0 <= k < a@.len() && a@[k] == x;
                assert(!b@.contains(a@[k]));
            }
        };
    }
    true
}

/// The pile at the first matching index, by linear search.
pub(crate) fn find_pile_index(piles: &Vec<NamedPile>, name: &String) -> (r: Option<usize>)
    ensures
        match r {
            Some(i) => i < piles@.len() && piles@[i as int].name@ == name@,
            None => forall|i: int| 0 <= i < piles@.len() ==> piles@[i].name@ != name@,
        },
{
    let mut i: usize = 0;
    while i < piles.len()
        invariant
            i <= piles@.len(),
            forall|k: int| 0 <= k < i ==> piles@[k].name@ != name@,
        decreases piles@.len() - i,
    {
        if piles[i].name == *name {
            return Some(i);
        }
        i = i + 1;
    }
    None
}

/// However a draw splits and moves cards, the two sides together hold
/// as many cards afterwards as before.
pub proof fn lemma_draw_preserves_count(s0: Seq<Card>, t0: Seq<Card>, s1: Seq<Card>, t1: Seq<Card>)
    requires
        s1.to_multiset().add(t1.to_multiset()) == s0.to_multiset().add(t0.to_multiset()),
    ensures
        s1.len() + t1.len() == s0.len() + t0.len(),
{
    broadcast use vstd::multiset::group_multiset_axioms;
    broadcast use vstd::seq_lib::group_to_multiset_ensures;

    assert(s1.to_multiset().add(t1.to_multiset()).len() == s1.len() + t1.len());
    assert(s0.to_multiset().add(t0.to_multiset()).len() == s0.len() + t0.len());
}

} // verus!
