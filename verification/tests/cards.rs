use card_api::{Card, CardSelection, CardSuit, CardValue, HasStringCode, StringCodes};

fn card(code: &str) -> Card {
    Card::from_str(code.to_string()).expect("valid card code")
}

fn all_card_codes() -> Vec<String> {
    let suits = ["S", "D", "C", "H"];
    let values = ["A", "2", "3", "4", "5", "6", "7", "8", "9", "0", "J", "Q", "K"];
    let mut codes = Vec::new();
    for s in suits.iter() {
        for v in values.iter() {
            codes.push(format!("{}{}", v, s));
        }
    }
    codes
}

#[test]
fn card_code_round_trip_all_52() {
    for code in all_card_codes() {
        let c = Card::from_str(code.clone()).expect("every code in the domain parses");
        assert_eq!(c.to_str(), code);
        assert_eq!(Card::from_str(c.to_str()), Some(c));
    }
}

#[test]
fn card_parse_examples() {
    let ace_of_spades = card("AS");
    assert_eq!(ace_of_spades.suit, CardSuit::Spades);
    assert_eq!(ace_of_spades.value, CardValue::Ace);
    let ten_of_hearts = card("0H");
    assert_eq!(ten_of_hearts.suit, CardSuit::Hearts);
    assert_eq!(ten_of_hearts.value, CardValue::Ten);
}

#[test]
fn card_parse_rejects_bad_codes() {
    assert_eq!(Card::from_str("".to_string()), None);
    assert_eq!(Card::from_str("A".to_string()), None);
    assert_eq!(Card::from_str("ASS".to_string()), None);
    assert_eq!(Card::from_str("XH".to_string()), None);
    assert_eq!(Card::from_str("AX".to_string()), None);
    assert_eq!(Card::from_str("10".to_string()), None);
}

#[test]
fn suit_and_value_codes() {
    assert_eq!(CardSuit::from_str("H".to_string()), Some(CardSuit::Hearts));
    assert_eq!(CardSuit::from_str("C".to_string()), Some(CardSuit::Clubs));
    assert_eq!(CardSuit::from_str("S".to_string()), Some(CardSuit::Spades));
    assert_eq!(CardSuit::from_str("D".to_string()), Some(CardSuit::Diamonds));
    assert_eq!(CardSuit::from_str("X".to_string()), None);
    assert_eq!(CardSuit::from_str("HH".to_string()), None);
    assert_eq!(CardSuit::Hearts.to_str(), "H");
    assert_eq!(CardValue::from_str("0".to_string()), Some(CardValue::Ten));
    assert_eq!(CardValue::from_str("T".to_string()), None);
    assert_eq!(CardValue::King.to_str(), "K");
    assert_eq!(CardValue::Ten.to_str(), "0");
}

#[test]
fn stringcodes_parse_and_query() {
    let suits: StringCodes<CardSuit> = StringCodes::from_str("H,S,D".to_string()).unwrap();
    assert_eq!(suits.len(), 3);
    assert!(suits.contains(&CardSuit::Hearts));
    assert!(suits.contains(&CardSuit::Spades));
    assert!(suits.contains(&CardSuit::Diamonds));
    assert!(!suits.contains(&CardSuit::Clubs));
}

#[test]
fn stringcodes_rejects_bad_lists() {
    assert!(StringCodes::<CardSuit>::from_str("X".to_string()).is_none());
    assert!(StringCodes::<CardSuit>::from_str("".to_string()).is_none());
    assert!(StringCodes::<CardSuit>::from_str("H,".to_string()).is_none());
    assert!(StringCodes::<CardSuit>::from_str("H,,S".to_string()).is_none());
    assert!(StringCodes::<CardSuit>::from_str("H,X".to_string()).is_none());
}

#[test]
fn stringcodes_new_is_empty() {
    let none: StringCodes<CardValue> = StringCodes::new();
    assert_eq!(none.len(), 0);
    assert!(!none.contains(&CardValue::Ace));
}

#[test]
fn selection_empty_picks_nothing() {
    let picked = CardSelection::from_all(CardSelection::Empty);
    assert!(picked.is_empty());
}

#[test]
fn selection_all_unshuffled_is_canonical_order() {
    let picked = CardSelection::from_all(CardSelection::All(false));
    assert_eq!(picked.len(), 52);
    assert_eq!(picked[0], card("AS"));
    assert_eq!(picked[12], card("KS"));
    assert_eq!(picked[13], card("AD"));
    assert_eq!(picked[51], card("KH"));
}

#[test]
fn selection_all_shuffled_is_permutation() {
    let picked = CardSelection::from_all(CardSelection::All(true));
    assert_eq!(picked.len(), 52);
    for code in all_card_codes() {
        let c = card(code.as_str());
        assert_eq!(picked.iter().filter(|x| **x == c).count(), 1);
    }
}

#[test]
fn selection_top_takes_last_in_order() {
    let base = CardSelection::from_all(CardSelection::Bottom(5));
    assert_eq!(base, vec![card("AS"), card("2S"), card("3S"), card("4S"), card("5S")]);
    let top = CardSelection::filter_cards(&base, CardSelection::Top(2));
    assert_eq!(top, vec![card("4S"), card("5S")]);
}

#[test]
fn selection_numeric_counts_clamp() {
    let base = CardSelection::from_all(CardSelection::Bottom(3));
    assert_eq!(CardSelection::filter_cards(&base, CardSelection::Top(99)).len(), 3);
    assert_eq!(CardSelection::filter_cards(&base, CardSelection::Bottom(99)).len(), 3);
    assert_eq!(CardSelection::filter_cards(&base, CardSelection::Random(99)).len(), 3);
    assert_eq!(CardSelection::from_all(CardSelection::Bottom(99)).len(), 52);
}

#[test]
fn selection_random_picks_distinct_cards_from_source() {
    let base = CardSelection::from_all(CardSelection::All(false));
    let picked = CardSelection::filter_cards(&base, CardSelection::Random(5));
    assert_eq!(picked.len(), 5);
    for (i, c) in picked.iter().enumerate() {
        assert!(base.contains(c));
        assert!(picked[i + 1..].iter().all(|d| d != c));
    }
}

#[test]
fn selection_random_of_whole_deck_is_permutation() {
    let picked = CardSelection::from_all(CardSelection::Random(52));
    assert_eq!(picked.len(), 52);
    for code in all_card_codes() {
        let c = card(code.as_str());
        assert_eq!(picked.iter().filter(|x| **x == c).count(), 1);
    }
}

#[test]
fn selection_filter_hearts_returns_all_13_hearts() {
    let suits: StringCodes<CardSuit> = StringCodes::from_str("H".to_string()).unwrap();
    let values: StringCodes<CardValue> = StringCodes::new();
    let picked = CardSelection::from_all(CardSelection::Filter { suits, values });
    assert_eq!(picked.len(), 13);
    assert!(picked.iter().all(|c| c.suit == CardSuit::Hearts));
}

#[test]
fn selection_filter_by_suit_and_value() {
    let suits: StringCodes<CardSuit> = StringCodes::from_str("H,S".to_string()).unwrap();
    let values: StringCodes<CardValue> = StringCodes::from_str("A,K".to_string()).unwrap();
    let picked = CardSelection::from_all(CardSelection::Filter { suits, values });
    assert_eq!(picked, vec![card("AS"), card("KS"), card("AH"), card("KH")]);
}

#[test]
fn selection_filter_with_both_sets_empty_picks_nothing() {
    let picked = CardSelection::from_all(CardSelection::Filter {
        suits: StringCodes::new(),
        values: StringCodes::new(),
    });
    assert!(picked.is_empty());
}

#[test]
fn selection_cards_keeps_present_drops_absent() {
    let base = CardSelection::from_all(CardSelection::Bottom(5));
    let wanted = vec![card("3S"), card("KH"), card("AS")];
    let picked = CardSelection::filter_cards(&base, CardSelection::Cards(wanted));
    assert_eq!(picked, vec![card("AS"), card("3S")]);
}

#[test]
fn top_then_bottom_exhausts_the_deck() {
    let base = CardSelection::from_all(CardSelection::All(false));
    let first = CardSelection::filter_cards(&base, CardSelection::Top(20));
    let rest: Vec<_> = base[..32].to_vec();
    let second = CardSelection::filter_cards(&rest, CardSelection::Bottom(32));
    assert_eq!(first.len(), 20);
    assert_eq!(second.len(), 32);
    for c in first.iter() {
        assert!(!second.contains(c));
    }
    for code in all_card_codes() {
        let c = card(code.as_str());
        assert!(first.contains(&c) || second.contains(&c));
    }
}
