//! The four suits and their one-letter codes.

use vstd::prelude::*;

use crate::stringcode::HasStringCode;

verus! {

/// One of the four suits of a standard deck.
#[derive(Debug, Clone, Copy, PartialEq, Eq, Structural)]
pub enum CardSuit {
    Hearts,
    Clubs,
    Spades,
    Diamonds,
}

/// The one-letter code of a suit.
pub open spec fn suit_char(s: CardSuit) -> char {
    match s {
        CardSuit::Hearts => 'H',
        CardSuit::Clubs => 'C',
        CardSuit::Spades => 'S',
        CardSuit::Diamonds => 'D',
    }
}

/// The suit, if any, that a letter decodes to.
pub open spec fn suit_of_char(c: char) -> Option<CardSuit> {
    if c == 'H' {
        Some(CardSuit::Hearts)
    } else if c == 'C' {
        Some(CardSuit::Clubs)
    } else if c == 'S' {
        Some(CardSuit::Spades)
    } else if c == 'D' {
        Some(CardSuit::Diamonds)
    } else {
        None
    }
}

/// Decodes one letter.
pub fn suit_from_char(c: char) -> (r: Option<CardSuit>)
    ensures
        r == suit_of_char(c),
{
    match c {
        'H' => Some(CardSuit::Hearts),
        'C' => Some(CardSuit::Clubs),
        'S' => Some(CardSuit::Spades),
        'D' => Some(CardSuit::Diamonds),
        _ => None,
    }
}

impl HasStringCode for CardSuit {
    open spec fn code(&self) -> Seq<char> {
        seq![suit_char(*self)]
    }

    open spec fn of_code(s: Seq<char>) -> Option<CardSuit> {
        if s.len() == 1 {
            suit_of_char(s[0])
        } else {
            None
        }
    }

    fn from_str(s: String) -> (r: Option<CardSuit>) {
        let st: &str = s.as_str();
        if st.unicode_len() != 1 {
            return None;
        }
        suit_from_char(st.get_char(0))
    }

    fn to_str(&self) -> (r: String) {
        match self {
            CardSuit::Hearts => {
                proof {
                    reveal_strlit("H");
                    assert(("H")@ =~= seq!['H']);
                }
                "H".to_owned()
            },
            CardSuit::Clubs => {
                proof {
                    reveal_strlit("C");
                    assert(("C")@ =~= seq!['C']);
                }
                "C".to_owned()
            },
            CardSuit::Spades => {
                proof {
                    reveal_strlit("S");
                    assert(("S")@ =~= seq!['S']);
                }
                "S".to_owned()
            },
            CardSuit::Diamonds => {
                proof {
                    reveal_strlit("D");
                    assert(("D")@ =~= seq!['D']);
                }
                "D".to_owned()
            },
        }
    }

    fn code_eq(&self, other: &CardSuit) -> (r: bool) {
        *self == *other
    }
}

} // verus!
