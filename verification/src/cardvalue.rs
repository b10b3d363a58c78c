//! The thirteen ranks and their one-character codes.

use vstd::prelude::*;

use crate::stringcode::HasStringCode;

verus! {

/// One of the thirteen ranks of a standard deck.
#[derive(Debug, Clone, Copy, PartialEq, Eq, Structural)]
pub enum CardValue {
    Ace,
    Two,
    Three,
    Four,
    Five,
    Six,
    Seven,
    Eight,
    Nine,
    Ten,
    Jack,
    Queen,
    King,
}

/// The one-character code of a rank; ten encodes as `'0'`.
pub open spec fn value_char(v: CardValue) -> char {
    match v {
        CardValue::Ace => 'A',
        CardValue::Two => '2',
        CardValue::Three => '3',
        CardValue::Four => '4',
        CardValue::Five => '5',
        CardValue::Six => '6',
        CardValue::Seven => '7',
        CardValue::Eight => '8',
        CardValue::Nine => '9',
        CardValue::Ten => '0',
        CardValue::Jack => 'J',
        CardValue::Queen => 'Q',
        CardValue::King => 'K',
    }
}

/// The rank, if any, that a character decodes to.
pub open spec fn value_of_char(c: char) -> Option<CardValue> {
    if c == 'A' {
        Some(CardValue::Ace)
    } else if c == '2' {
        Some(CardValue::Two)
    } else if c == '3' {
        Some(CardValue::Three)
    } else if c == '4' {
        Some(CardValue::Four)
    } else if c == '5' {
        Some(CardValue::Five)
    } else if c == '6' {
        Some(CardValue::Six)
    } else if c == '7' {
        Some(CardValue::Seven)
    } else if c == '8' {
        Some(CardValue::Eight)
    } else if c == '9' {
        Some(CardValue::Nine)
    } else if c == '0' {
        Some(CardValue::Ten)
    } else if c == 'J' {
        Some(CardValue::Jack)
    } else if c == 'Q' {
        Some(CardValue::Queen)
    } else if c == 'K' {
        Some(CardValue::King)
    } else {
        None
    }
}

/// Decodes one character.
pub fn value_from_char(c: char) -> (r: Option<CardValue>)
    ensures
        r == value_of_char(c),
{
    match c {
        'A' => Some(CardValue::Ace),
        '2' => Some(CardValue::Two),
        '3' => Some(CardValue::Three),
        '4' => Some(CardValue::Four),
        '5' => Some(CardValue::Five),
        '6' => Some(CardValue::Six),
        '7' => Some(CardValue::Seven),
        '8' => Some(CardValue::Eight),
        '9' => Some(CardValue::Nine),
        '0' => Some(CardValue::Ten),
        'J' => Some(CardValue::Jack),
        'Q' => Some(CardValue::Queen),
        'K' => Some(CardValue::King),
        _ => None,
    }
}

impl HasStringCode for CardValue {
    open spec fn code(&self) -> Seq<char> {
        seq![value_char(*self)]
    }

    open spec fn of_code(s: Seq<char>) -> Option<CardValue> {
        if s.len() == 1 {
            value_of_char(s[0])
        } else {
            None
        }
    }

    fn from_str(s: String) -> (r: Option<CardValue>) {
        let st: &str = s.as_str();
        if st.unicode_len() != 1 {
            return None;
        }
        value_from_char(st.get_char(0))
    }

    fn to_str(&self) -> (r: String) {
        match self {
            CardValue::Ace => {
                proof {
                    reveal_strlit("A");
                    assert(("A")@ =~= seq!['A']);
                }
                "A".to_owned()
            },
            CardValue::Two => {
                proof {
                    reveal_strlit("2");
                    assert(("2")@ =~= seq!['2']);
                }
                "2".to_owned()
            },
            CardValue::Three => {
                proof {
                    reveal_strlit("3");
                    assert(("3")@ =~= seq!['3']);
                }
                "3".to_owned()
            },
            CardValue::Four => {
                proof {
                    reveal_strlit("4");
                    assert(("4")@ =~= seq!['4']);
                }
                "4".to_owned()
            },
            CardValue::Five => {
                proof {
                    reveal_strlit("5");
                    assert(("5")@ =~= seq!['5']);
                }
                "5".to_owned()
            },
            CardValue::Six => {
                proof {
                    reveal_strlit("6");
                    assert(("6")@ =~= seq!['6']);
                }
                "6".to_owned()
            },
            CardValue::Seven => {
                proof {
                    reveal_strlit("7");
                    assert(("7")@ =~= seq!['7']);
                }
                "7".to_owned()
            },
            CardValue::Eight => {
                proof {
                    reveal_strlit("8");
                    assert(("8")@ =~= seq!['8']);
                }
                "8".to_owned()
            },
            CardValue::Nine => {
                proof {
                    reveal_strlit("9");
                    assert(("9")@ =~= seq!['9']);
                }
                "9".to_owned()
            },
            CardValue::Ten => {
                proof {
                    reveal_strlit("0");
                    assert(("0")@ =~= seq!['0']);
                }
                "0".to_owned()
            },
            CardValue::Jack => {
                proof {
                    reveal_strlit("J");
                    assert(("J")@ =~= seq!['J']);
                }
                "J".to_owned()
            },
            CardValue::Queen => {
                proof {
                    reveal_strlit("Q");
                    assert(("Q")@ =~= seq!['Q']);
                }
                "Q".to_owned()
            },
            CardValue::King => {
                proof {
                    reveal_strlit("K");
                    assert(("K")@ =~= seq!['K']);
                }
                "K".to_owned()
            },
        }
    }

    fn code_eq(&self, other: &CardValue) -> (r: bool) {
        *self == *other
    }
}

} // verus!
