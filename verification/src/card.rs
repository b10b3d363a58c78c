//! A playing card and its two-character code: rank character first, suit
//! letter second (so the ace of spades is `AS`, the ten of hearts `0H`).

use vstd::prelude::*;

use crate::cardsuit::{suit_char, suit_from_char, suit_of_char, CardSuit};
use crate::cardvalue::{value_char, value_from_char, value_of_char, CardValue};
use crate::stringcode::HasStringCode;

verus! {

/// An immutable rank-and-suit pair; equal exactly when both parts are.
#[derive(Debug, Clone, Copy, PartialEq, Eq, Structural)]
pub struct Card {
    pub suit: CardSuit,
    pub value: CardValue,
}

impl HasStringCode for Card {
    open spec fn code(&self) -> Seq<char> {
        seq![value_char(self.value), suit_char(self.suit)]
    }

    open spec fn of_code(s: Seq<char>) -> Option<Card> {
        if s.len() == 2 {
            match (value_of_char(s[0]), suit_of_char(s[1])) {
                (Some(v), Some(su)) => Some(Card { suit: su, value: v }),
                _ => None,
            }
        } else {
            None
        }
    }

    fn from_str(s: String) -> (r: Option<Card>) {
        let st: &str = s.as_str();
        if st.unicode_len() != 2 {
            return None;
        }
        let v = value_from_char(st.get_char(0));
        let su = suit_from_char(st.get_char(1));
        match (v, su) {
            (Some(v), Some(su)) => Some(Card { suit: su, value: v }),
            _ => None,
        }
    }

    fn to_str(&self) -> (r: String) {
        let r = self.value.to_str().concat(self.suit.to_str().as_str());
        proof {
            assert(r@ =~= self.code());
        }
        r
    }

    fn code_eq(&self, other: &Card) -> (r: bool) {
        *self == *other
    }
}

/// Round trip: decoding the canonical code of any card gives that card
/// back.
pub proof fn lemma_code_round_trip(c: Card)
    ensures
        Card::of_code(c.code()) == Some(c),
{
}

} // verus!
