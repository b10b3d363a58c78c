use card_api::{
    Card, CardAPIError, CardCollection, CardSelection, CollectionType, Deck, Game, HasStringCode,
    Pile,
};

fn card(code: &str) -> Card {
    Card::from_str(code.to_string()).expect("valid card code")
}

fn all_cards() -> Vec<Card> {
    CardSelection::from_all(CardSelection::All(false))
}

#[test]
fn collection_new_is_empty() {
    let c = CardCollection::new();
    assert_eq!(c.remaining(), 0);
    assert!(!c.contains(&card("AS")));
}

#[test]
fn collection_from_selection_bottom() {
    let c = CardCollection::from_selection(CardSelection::Bottom(3));
    assert_eq!(c.remaining(), 3);
    assert!(c.contains(&card("AS")));
    assert!(c.contains(&card("2S")));
    assert!(c.contains(&card("3S")));
    assert!(!c.contains(&card("4S")));
}

#[test]
fn collection_select_leaves_collection_unchanged() {
    let c = CardCollection::from_selection(CardSelection::Bottom(5));
    let picked = c.select(CardSelection::Top(2));
    assert_eq!(picked, vec![card("4S"), card("5S")]);
    assert_eq!(c.remaining(), 5);
}

#[test]
fn collection_add_removes_preexisting_duplicates() {
    let mut c = CardCollection::from_selection(CardSelection::Bottom(3));
    c.add(vec![card("3S"), card("4S")]);
    assert_eq!(c.remaining(), 4);
    assert_eq!(*c.get(0), card("AS"));
    assert_eq!(*c.get(1), card("2S"));
    assert_eq!(*c.get(2), card("3S"));
    assert_eq!(*c.get(3), card("4S"));
}

#[test]
fn collection_contains_none_and_all() {
    let low = CardCollection::from_selection(CardSelection::Bottom(5));
    let high = CardCollection::from_selection(CardSelection::Top(5));
    let low_part = CardCollection::from_selection(CardSelection::Bottom(2));
    assert!(low.contains_none(&high));
    assert!(!low.contains_none(&low_part));
    assert!(low.contains_all(&low_part));
    assert!(!low_part.contains_all(&low));
}

#[test]
fn collection_draw_moves_selection_and_preserves_count() {
    let mut source = CardCollection::from_selection(CardSelection::Bottom(5));
    let mut target = CardCollection::from_selection(CardSelection::Top(2));
    let before = source.remaining() + target.remaining();
    let r = source.draw(&CardSelection::Top(2), &mut target);
    assert!(r.is_ok());
    assert_eq!(source.remaining() + target.remaining(), before);
    assert_eq!(source.remaining(), 3);
    assert_eq!(target.remaining(), 4);
    assert!(target.contains(&card("4S")));
    assert!(target.contains(&card("5S")));
    assert!(!source.contains(&card("5S")));
    assert_eq!(*target.get(2), card("4S"));
    assert_eq!(*target.get(3), card("5S"));
}

#[test]
fn collection_draw_never_leaves_a_card_on_both_sides() {
    let mut source = CardCollection::from_selection(CardSelection::Bottom(10));
    let mut target = CardCollection::new();
    source.draw(&CardSelection::Random(4), &mut target).unwrap();
    assert_eq!(source.remaining(), 6);
    assert_eq!(target.remaining(), 4);
    assert!(source.contains_none(&target));
}

#[test]
fn pile_record_keeps_its_parts() {
    let deck_id = "somedeckidentifier".to_string();
    let p = Pile::new("discard".to_string(), &deck_id, vec![card("AS")]);
    assert_eq!(p.name().as_str(), "discard");
}

#[test]
fn deck_new_has_52_cards_and_no_piles() {
    let d = Deck::new(CardSelection::All(false)).unwrap();
    assert_eq!(d.cards().remaining(), 52);
    assert_eq!(d.id().chars().count(), 12);
    assert!(!d.has_pile(&"discard".to_string()));
    assert!(d.get_pile(&"discard".to_string()).is_none());
}

#[test]
fn deck_new_pile_rejects_duplicate_names() {
    let mut d = Deck::new(CardSelection::All(true)).unwrap();
    {
        let p = d.new_pile("discard".to_string()).unwrap();
        assert_eq!(p.remaining(), 0);
    }
    assert!(d.has_pile(&"discard".to_string()));
    match d.new_pile("discard".to_string()) {
        Err(CardAPIError::AlreadyExists) => {},
        _ => panic!("creating a pile under a used name must fail with AlreadyExists"),
    }
}

#[test]
fn deck_cards_mut_gives_exclusive_access() {
    let mut d = Deck::new(CardSelection::Bottom(3)).unwrap();
    let mut side = CardCollection::new();
    d.cards_mut().draw(&CardSelection::Bottom(1), &mut side).unwrap();
    assert_eq!(d.cards().remaining(), 2);
    assert_eq!(side.remaining(), 1);
    assert!(side.contains(&card("AS")));
}

#[test]
fn game_new_has_full_shuffled_deck_and_no_piles() {
    let g = Game::new();
    assert_eq!(g.deck().remaining(), 52);
    assert_eq!(g.id.chars().count(), 12);
    assert!(!g.has_pile(&"discard".to_string()));
    for c in all_cards() {
        assert!(g.deck().contains(&c));
    }
}

#[test]
fn game_new_pile_rejects_duplicate_names() {
    let mut g = Game::new();
    assert!(g.new_pile("discard".to_string()).is_ok());
    assert!(g.has_pile(&"discard".to_string()));
    assert_eq!(g.new_pile("discard".to_string()), Err(CardAPIError::AlreadyExists));
    assert!(g.new_pile("burn".to_string()).is_ok());
}

#[test]
fn game_draw_to_missing_pile_fails_with_not_found() {
    let mut g = Game::new();
    let r = g.draw(CollectionType::Deck, CollectionType::Pile("discard".to_string()), &CardSelection::Top(1));
    assert_eq!(r, Err(CardAPIError::NotFound));
    assert_eq!(g.deck().remaining(), 52);
}

#[test]
fn game_draw_from_missing_pile_fails_with_not_found() {
    let mut g = Game::new();
    g.new_pile("discard".to_string()).unwrap();
    let r = g.draw(CollectionType::Pile("burn".to_string()), CollectionType::Pile("discard".to_string()), &CardSelection::Top(1));
    assert_eq!(r, Err(CardAPIError::NotFound));
    assert_eq!(g.get_pile(&"discard".to_string()).unwrap().remaining(), 0);
}

#[test]
fn game_draw_into_itself_is_a_no_op() {
    let mut g = Game::new();
    g.new_pile("discard".to_string()).unwrap();
    g.draw(CollectionType::Deck, CollectionType::Pile("discard".to_string()), &CardSelection::Top(5)).unwrap();
    assert!(g.draw(CollectionType::Deck, CollectionType::Deck, &CardSelection::Random(7)).is_ok());
    assert_eq!(g.deck().remaining(), 47);
    let same = CollectionType::Pile("discard".to_string());
    let same_again = CollectionType::Pile("discard".to_string());
    assert!(g.draw(same, same_again, &CardSelection::Top(3)).is_ok());
    assert_eq!(g.get_pile(&"discard".to_string()).unwrap().remaining(), 5);
}

#[test]
fn game_draw_between_piles_and_back_to_deck() {
    let mut g = Game::new();
    g.new_pile("hand".to_string()).unwrap();
    g.new_pile("discard".to_string()).unwrap();
    g.draw(CollectionType::Deck, CollectionType::Pile("hand".to_string()), &CardSelection::Top(8)).unwrap();
    g.draw(CollectionType::Pile("hand".to_string()), CollectionType::Pile("discard".to_string()), &CardSelection::Bottom(3)).unwrap();
    assert_eq!(g.deck().remaining(), 44);
    assert_eq!(g.get_pile(&"hand".to_string()).unwrap().remaining(), 5);
    assert_eq!(g.get_pile(&"discard".to_string()).unwrap().remaining(), 3);
    g.draw(CollectionType::Pile("discard".to_string()), CollectionType::Deck, &CardSelection::All(false)).unwrap();
    assert_eq!(g.deck().remaining(), 47);
    assert_eq!(g.get_pile(&"discard".to_string()).unwrap().remaining(), 0);
}

#[test]
fn game_from_parts_rebuilds_a_consistent_game() {
    let deck = vec![card("AS"), card("2S"), card("3S")];
    let piles = vec![
        ("discard".to_string(), vec![card("AH"), card("KH")]),
        ("burn".to_string(), vec![card("QD")]),
    ];
    let g = Game::from_parts("gameidentifier".to_string(), deck, piles).unwrap();
    assert_eq!(g.id.as_str(), "gameidentifier");
    assert_eq!(g.deck().remaining(), 3);
    assert_eq!(g.pile_count(), 2);
    assert_eq!(g.pile_name_at(0).as_str(), "discard");
    assert_eq!(g.pile_at(0).remaining(), 2);
    assert!(g.get_pile(&"burn".to_string()).unwrap().contains(&card("QD")));
}

#[test]
fn game_from_parts_rejects_duplicate_pile_names() {
    let piles = vec![
        ("discard".to_string(), vec![card("AH")]),
        ("discard".to_string(), vec![card("QD")]),
    ];
    let r = Game::from_parts("gameidentifier".to_string(), vec![card("AS")], piles);
    assert_eq!(r.err(), Some(CardAPIError::AlreadyExists));
}

#[test]
fn game_from_parts_rejects_a_card_in_two_places() {
    let piles = vec![("discard".to_string(), vec![card("AS")])];
    let r = Game::from_parts("gameidentifier".to_string(), vec![card("AS")], piles);
    assert_eq!(r.err(), Some(CardAPIError::CardAlreadyInCollection));
    let r2 = Game::from_parts(
        "gameidentifier".to_string(),
        vec![card("AS"), card("AS")],
        Vec::new(),
    );
    assert_eq!(r2.err(), Some(CardAPIError::CardAlreadyInCollection));
}

#[test]
fn game_scenario_random_ten_to_discard_keeps_the_universe() {
    let mut g = Game::new();
    g.new_pile("discard".to_string()).unwrap();
    g.draw(CollectionType::Deck, CollectionType::Pile("discard".to_string()), &CardSelection::Random(10)).unwrap();
    assert_eq!(g.deck().remaining(), 42);
    let discard_count = {
        let discard = g.get_pile(&"discard".to_string()).unwrap();
        assert!(g.deck().contains_none(discard));
        discard.remaining()
    };
    assert_eq!(discard_count, 10);
    for c in all_cards() {
        let in_deck = g.deck().contains(&c);
        let in_discard = g.get_pile(&"discard".to_string()).unwrap().contains(&c);
        assert!(in_deck != in_discard, "each card sits in exactly one collection");
    }
}
