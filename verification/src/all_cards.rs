//! The 52-card universe in its canonical order: spades, diamonds, clubs,
//! hearts, each from ace to king.

use vstd::arithmetic::div_mod::{lemma_fundamental_div_mod, lemma_fundamental_div_mod_converse};
use vstd::prelude::*;

use crate::card::Card;
use crate::cardsuit::CardSuit;
use crate::cardvalue::CardValue;

verus! {

/// The suit of the `i`-th thirteen-card block of the canonical order.
pub open spec fn suit_at(i: int) -> CardSuit {
    if i == 0 {
        CardSuit::Spades
    } else if i == 1 {
        CardSuit::Diamonds
    } else if i == 2 {
        CardSuit::Clubs
    } else {
        CardSuit::Hearts
    }
}

/// The rank at offset `j` within one suit's block.
pub open spec fn value_at(j: int) -> CardValue {
    if j == 0 {
        CardValue::Ace
    } else if j == 1 {
        CardValue::Two
    } else if j == 2 {
        CardValue::Three
    } else if j == 3 {
        CardValue::Four
    } else if j == 4 {
        CardValue::Five
    } else if j == 5 {
        CardValue::Six
    } else if j == 6 {
        CardValue::Seven
    } else if j == 7 {
        CardValue::Eight
    } else if j == 8 {
        CardValue::Nine
    } else if j == 9 {
        CardValue::Ten
    } else if j == 10 {
        CardValue::Jack
    } else if j == 11 {
        CardValue::Queen
    } else {
        CardValue::King
    }
}

/// The card at position `i` of the canonical order.
pub open spec fn card_at(i: int) -> Card {
    Card { suit: suit_at(i / 13), value: value_at(i % 13) }
}

/// The full 52-card universe, in canonical order.
pub open spec fn all_cards() -> Seq<Card> {
    Seq::new(52, |i: int| card_at(i))
}

fn suit_from_index(i: usize) -> (r: CardSuit)
    requires
        i < 4,
    ensures
        r == suit_at(i as int),
{
    if i == 0 {
        CardSuit::Spades
    } else if i == 1 {
        CardSuit::Diamonds
    } else if i == 2 {
        CardSuit::Clubs
    } else {
        CardSuit::Hearts
    }
}

fn value_from_index(j: usize) -> (r: CardValue)
    requires
        j < 13,
    ensures
        r == value_at(j as int),
{
    if j == 0 {
        CardValue::Ace
    } else if j == 1 {
        CardValue::Two
    } else if j == 2 {
        CardValue::Three
    } else if j == 3 {
        CardValue::Four
    } else if j == 4 {
        CardValue::Five
    } else if j == 5 {
        CardValue::Six
    } else if j == 6 {
        CardValue::Seven
    } else if j == 7 {
        CardValue::Eight
    } else if j == 8 {
        CardValue::Nine
    } else if j == 9 {
        CardValue::Ten
    } else if j == 10 {
        CardValue::Jack
    } else if j == 11 {
        CardValue::Queen
    } else {
        CardValue::King
    }
}

/// Builds the full deck in canonical order.
pub fn standard_deck() -> (r: Vec<Card>)
    ensures
        r@ == all_cards(),
{
    let mut r: Vec<Card> = Vec::new();
    let mut si: usize = 0;
    while si < 4
        invariant
            si <= 4,
            r@.len() == 13 * si,
            forall|k: int| 0 <= k < r@.len() ==> r@[k] == card_at(k),
        decreases 4 - si,
    {
        let mut vi: usize = 0;
        while vi < 13
            invariant
                si < 4,
                vi <= 13,
                r@.len() == 13 * si + vi,
                forall|k: int| 0 <= k < r@.len() ==> r@[k] == card_at(k),
            decreases 13 - vi,
        {
            let c = Card { suit: suit_from_index(si), value: value_from_index(vi) };
            proof {
                lemma_fundamental_div_mod_converse(
                    13 * (si as int) + (vi as int),
                    13,
                    si as int,
                    vi as int,
                );
            }
            r.push(c);
            vi = vi + 1;
        }
        si = si + 1;
    }
    proof {
        assert(r@ =~= all_cards());
    }
    r
}

/// No card appears twice in the canonical order.
pub proof fn lemma_all_cards_no_duplicates()
    ensures
        all_cards().no_duplicates(),
{
    assert forall|i: int, j: int|
        0 <= i < 52 && 0 <= j < 52 && i != j implies all_cards()[i] != all_cards()[j] by {
        lemma_fundamental_div_mod(i, 13);
        lemma_fundamental_div_mod(j, 13);
    };
}

/// Every card occurs in the canonical order.
pub proof fn lemma_all_cards_complete(c: Card)
    ensures
        all_cards().contains(c),
{
    let si: int = if c.suit == CardSuit::Spades {
        0
    } else if c.suit == CardSuit::Diamonds {
        1
    } else if c.suit == CardSuit::Clubs {
        2
    } else {
        3
    };
    let vi: int = if c.value == CardValue::Ace {
        0
    } else if c.value == CardValue::Two {
        1
    } else if c.value == CardValue::Three {
        2
    } else if c.value == CardValue::Four {
        3
    } else if c.value == CardValue::Five {
        4
    } else if c.value == CardValue::Six {
        5
    } else if c.value == CardValue::Seven {
        6
    } else if c.value == CardValue::Eight {
        7
    } else if c.value == CardValue::Nine {
        8
    } else if c.value == CardValue::Ten {
        9
    } else if c.value == CardValue::Jack {
        10
    } else if c.value == CardValue::Queen {
        11
    } else {
        12
    };
    let i = 13 * si + vi;
    lemma_fundamental_div_mod_converse(i, 13, si, vi);
    assert(all_cards()[i] == c);
}

} // verus!
