//! Selection descriptors: which cards to pick out of a collection, and
//! the splitting of a card sequence into the picked cards and the rest.

use vstd::prelude::*;

use crate::all_cards::{all_cards, lemma_all_cards_complete, lemma_all_cards_no_duplicates, standard_deck};
use crate::card::Card;
use crate::cardsuit::CardSuit;
use crate::cardvalue::CardValue;
use crate::seq_facts::{
    in_list_pred, lemma_append_multiset, lemma_filter_multiset_count,
    lemma_filter_partition_multiset, lemma_no_dup_count, lemma_partition_sides, not_pred,
};
use crate::shuffle::shuffle_cards;
use crate::stringcode::StringCodes;

verus! {

/// Whether a card passes a suit/rank filter: an empty suit set or rank
/// set leaves that attribute unconstrained, but a filter with both sets
/// empty matches nothing at all.
pub open spec fn matches_filter(c: Card, suits: Seq<CardSuit>, values: Seq<CardValue>) -> bool {
    &&& !(suits.len() == 0 && values.len() == 0)
    &&& (suits.len() == 0 || suits.contains(c.suit))
    &&& (values.len() == 0 || values.contains(c.value))
}

/// The filter test as a one-card predicate.
pub open spec fn filter_pred(suits: Seq<CardSuit>, values: Seq<CardValue>) -> spec_fn(Card) -> bool {
    |c: Card| matches_filter(c, suits, values)
}

/// `n` clamped to an available count: numeric selections never fail for
/// want of cards, they take what is there.
pub open spec fn clamped(n: int, len: int) -> int {
    if n <= len {
        n
    } else {
        len
    }
}

/// A description of which cards to pick out of a collection, without
/// naming them individually.
#[derive(Debug)]
pub enum CardSelection {
    /// Picks nothing.
    Empty,
    /// Picks every card; in a fresh random order when the flag is set.
    All(bool),
    /// Picks the last `n` cards in current order, clamped to the
    /// available count.
    Top(usize),
    /// Picks the first `n` cards, clamped to the available count.
    Bottom(usize),
    /// Picks `n` distinct cards at random, clamped to the available
    /// count.
    Random(usize),
    /// Picks every card passing the suit/rank filter; both sets empty
    /// picks nothing.
    Filter { suits: StringCodes<CardSuit>, values: StringCodes<CardValue> },
    /// Picks the listed cards that are present, in the source's order;
    /// listed cards absent from the source are silently dropped.
    Cards(Vec<Card>),
}

impl CardSelection {
    /// Whether the picked cards are a fixed function of the source.
    pub open spec fn is_deterministic(&self) -> bool {
        match *self {
            CardSelection::All(shuffled) => !shuffled,
            CardSelection::Random(_) => false,
            _ => true,
        }
    }

    /// The cards a deterministic selection picks from `s`, in order.
    /// `Random` and shuffled `All` have no fixed outcome; their arms
    /// only make this function total and no contract uses them.
    pub open spec fn spec_selected(&self, s: Seq<Card>) -> Seq<Card> {
        match *self {
            CardSelection::Empty => Seq::empty(),
            CardSelection::All(_) => s,
            CardSelection::Top(n) => s.subrange(
                s.len() - clamped(n as int, s.len() as int),
                s.len() as int,
            ),
            CardSelection::Bottom(n) => s.subrange(0, clamped(n as int, s.len() as int)),
            CardSelection::Random(_) => Seq::empty(),
            CardSelection::Filter { suits, values } => s.filter(filter_pred(suits@, values@)),
            CardSelection::Cards(list) => s.filter(in_list_pred(list@)),
        }
    }

    /// What remains of `s` after a deterministic selection picks its
    /// cards; the order of the remaining cards is preserved. As with
    /// `spec_selected`, the `Random` and shuffled-`All` arms are unused.
    pub open spec fn spec_residual(&self, s: Seq<Card>) -> Seq<Card> {
        match *self {
            CardSelection::Empty => s,
            CardSelection::All(_) => Seq::empty(),
            CardSelection::Top(n) => s.subrange(0, s.len() - clamped(n as int, s.len() as int)),
            CardSelection::Bottom(n) => s.subrange(
                clamped(n as int, s.len() as int),
                s.len() as int,
            ),
            CardSelection::Random(_) => s,
            CardSelection::Filter { suits, values } => s.filter(
                not_pred(filter_pred(suits@, values@)),
            ),
            CardSelection::Cards(list) => s.filter(not_pred(in_list_pred(list@))),
        }
    }

    /// Splits `cards` into the cards this selection picks and the
    /// residual with exactly those cards removed: every card of the
    /// source lands on exactly one side, and no card is invented.
    pub fn split_cards(&self, cards: &Vec<Card>) -> (pair: (Vec<Card>, Vec<Card>))
        requires
            cards@.no_duplicates(),
        ensures
            pair.0@.to_multiset().add(pair.1@.to_multiset()) == cards@.to_multiset(),
            pair.0@.no_duplicates(),
            pair.1@.no_duplicates(),
            forall|c: Card| pair.0@.contains(c) ==> cards@.contains(c),
            forall|c: Card| pair.1@.contains(c) ==> cards@.contains(c),
            forall|c: Card| !(pair.0@.contains(c) && pair.1@.contains(c)),
            self.is_deterministic() ==> pair.0@ == self.spec_selected(cards@),
            self.is_deterministic() ==> pair.1@ == self.spec_residual(cards@),
            match *self {
                CardSelection::All(_) => pair.1@.len() == 0,
                CardSelection::Random(n) => pair.0@.len() == clamped(
                    n as int,
                    cards@.len() as int,
                ),
                _ => true,
            },
    {
        match self {
            CardSelection::Empty => {
                let sel: Vec<Card> = Vec::new();
                let rest = copy_range(cards, 0, cards.len());
                proof {
                    assert(rest@ =~= cards@);
                    lemma_append_multiset(sel@, rest@);
                    assert(sel@ + rest@ =~= cards@);
                    lemma_partition_sides(sel@, rest@, cards@);
                }
                (sel, rest)
            },
            CardSelection::All(shuffled) => {
                let base = copy_range(cards, 0, cards.len());
                proof {
                    assert(base@ =~= cards@);
                }
                let sel = if *shuffled {
                    shuffle_cards(base)
                } else {
                    base
                };
                let rest: Vec<Card> = Vec::new();
                proof {
                    lemma_append_multiset(sel@, rest@);
                    assert(sel@ + rest@ =~= sel@);
                    lemma_partition_sides(sel@, rest@, cards@);
                }
                (sel, rest)
            },
            CardSelection::Top(n) => {
                let len = cards.len();
                let k = if *n <= len {
                    *n
                } else {
                    len
                };
                let rest = copy_range(cards, 0, len - k);
                let sel = copy_range(cards, len - k, len);
                proof {
                    assert(rest@ + sel@ =~= cards@);
                    lemma_append_multiset(rest@, sel@);
                    assert(sel@.to_multiset().add(rest@.to_multiset()) =~= rest@.to_multiset().add(
                        sel@.to_multiset(),
                    ));
                    lemma_partition_sides(sel@, rest@, cards@);
                }
                (sel, rest)
            },
            CardSelection::Bottom(n) => {
                let len = cards.len();
                let k = if *n <= len {
                    *n
                } else {
                    len
                };
                let sel = copy_range(cards, 0, k);
                let rest = copy_range(cards, k, len);
                proof {
                    assert(sel@ + rest@ =~= cards@);
                    lemma_append_multiset(sel@, rest@);
                    lemma_partition_sides(sel@, rest@, cards@);
                }
                (sel, rest)
            },
            CardSelection::Random(n) => {
                let len = cards.len();
                let k = if *n <= len {
                    *n
                } else {
                    len
                };
                let base = copy_range(cards, 0, len);
                proof {
                    assert(base@ =~= cards@);
                }
                let sh = shuffle_cards(base);
                let sel = copy_range(&sh, 0, k);
                proof {
                    lemma_random_selection_facts(sh@, sel@, cards@, k as int);
                }
                let pair = split_by_list(cards, &sel);
                let rest = pair.1;
                proof {
                    broadcast use vstd::multiset::group_multiset_axioms;
                    broadcast use vstd::seq_lib::group_to_multiset_ensures;

                    assert forall|c: Card|
                        sel@.to_multiset().add(rest@.to_multiset()).count(c)
                            == cards@.to_multiset().count(c) by {
                        lemma_filter_multiset_count(cards@, not_pred(in_list_pred(sel@)), c);
                        assert(not_pred(in_list_pred(sel@))(c) == !sel@.contains(c));
                        lemma_no_dup_count(sel@, c);
                        lemma_no_dup_count(cards@, c);
                    };
                    assert(sel@.to_multiset().add(rest@.to_multiset()) =~= cards@.to_multiset());
                    lemma_partition_sides(sel@, rest@, cards@);
                }
                (sel, rest)
            },
            CardSelection::Filter { suits, values } => {
                let pair = split_by_filter(cards, suits, values);
                proof {
                    lemma_filter_partition_multiset(cards@, filter_pred(suits@, values@));
                    lemma_partition_sides(pair.0@, pair.1@, cards@);
                }
                pair
            },
            CardSelection::Cards(list) => {
                let pair = split_by_list(cards, list);
                proof {
                    lemma_filter_partition_multiset(cards@, in_list_pred(list@));
                    lemma_partition_sides(pair.0@, pair.1@, cards@);
                }
                pair
            },
        }
    }

    /// The cards `selection` picks out of `cards`; the residual is
    /// discarded.
    pub fn filter_cards(cards: &Vec<Card>, selection: CardSelection) -> (r: Vec<Card>)
        requires
            cards@.no_duplicates(),
        ensures
            r@.no_duplicates(),
            forall|c: Card| r@.contains(c) ==> cards@.contains(c),
            selection.is_deterministic() ==> r@ == selection.spec_selected(cards@),
            match selection {
                CardSelection::All(_) => r@.to_multiset() == cards@.to_multiset(),
                CardSelection::Random(n) => r@.len() == clamped(n as int, cards@.len() as int),
                _ => true,
            },
    {
        let pair = selection.split_cards(cards);
        proof {
            broadcast use vstd::multiset::group_multiset_axioms;

            if pair.1@.len() == 0 {
                assert(pair.1@ =~= Seq::<Card>::empty());
                lemma_append_multiset(pair.0@, pair.1@);
                assert(pair.0@ + pair.1@ =~= pair.0@);
            }
        }
        pair.0
    }

    /// The cards `selection` picks out of a full canonical deck.
    pub fn from_all(selection: CardSelection) -> (r: Vec<Card>)
        ensures
            r@.no_duplicates(),
            forall|c: Card| r@.contains(c) ==> all_cards().contains(c),
            selection.is_deterministic() ==> r@ == selection.spec_selected(all_cards()),
            match selection {
                CardSelection::All(_) => r@.to_multiset() == all_cards().to_multiset(),
                CardSelection::Random(n) => r@.len() == clamped(n as int, 52),
                _ => true,
            },
    {
        let deck = standard_deck();
        proof {
            lemma_all_cards_no_duplicates();
        }
        CardSelection::filter_cards(&deck, selection)
    }
}

/// Taking the top `n` cards and then the bottom `m` of what remains,
/// where `m` is the count left over, exhausts a collection: the two
/// picks together are exactly the whole collection, nothing remains,
/// and (on a duplicate-free collection) the picks share no card.
pub proof fn lemma_top_then_bottom_exhausts(s: Seq<Card>, n: usize, m: usize)
    requires
        s.no_duplicates(),
        m as int == s.len() - clamped(n as int, s.len() as int),
    ensures
        ({
            let first = CardSelection::Top(n).spec_selected(s);
            let rest = CardSelection::Top(n).spec_residual(s);
            let second = CardSelection::Bottom(m).spec_selected(rest);
            let leftover = CardSelection::Bottom(m).spec_residual(rest);
            &&& second == rest
            &&& leftover.len() == 0
            &&& second + first == s
            &&& first.to_multiset().add(second.to_multiset()) == s.to_multiset()
            &&& forall|c: Card| !(first.contains(c) && second.contains(c))
        }),
{
    broadcast use vstd::multiset::group_multiset_axioms;

    let k = clamped(n as int, s.len() as int);
    let first = CardSelection::Top(n).spec_selected(s);
    let rest = CardSelection::Top(n).spec_residual(s);
    let second = CardSelection::Bottom(m).spec_selected(rest);
    assert(second =~= rest);
    assert(CardSelection::Bottom(m).spec_residual(rest).len() == 0);
    assert(second + first =~= s);
    lemma_append_multiset(second, first);
    assert(first.to_multiset().add(second.to_multiset()) =~= s.to_multiset());
    assert forall|c: Card| !(first.contains(c) && second.contains(c)) by {
        if first.contains(c) && second.contains(c) {
            let a = choose|a: int| 0 <= a < first.len() && first[a] == c;
            let b = choose|b: int| 0 <= b < second.len() && second[b] == c;
            assert(s[s.len() - k + a] == c);
            assert(s[b] == c);
        }
    };
}

/// A random pick of as many cards as a full deck holds is a permutation
/// of the deck: it holds every card exactly once.
pub proof fn lemma_random_all_permutation(selected: Seq<Card>, residual: Seq<Card>, source: Seq<
    Card,
>)
    requires
        selected.to_multiset().add(residual.to_multiset()) == source.to_multiset(),
        selected.len() == source.len(),
        source.to_multiset() == all_cards().to_multiset(),
    ensures
        forall|c: Card| #[trigger] selected.to_multiset().count(c) == 1,
        selected.no_duplicates(),
{
    broadcast use vstd::multiset::group_multiset_axioms;
    broadcast use vstd::seq_lib::group_to_multiset_ensures;

    lemma_all_cards_no_duplicates();
    assert(selected.to_multiset().len() == selected.len());
    assert(residual.to_multiset().len() == residual.len());
    assert(source.to_multiset().len() == source.len());
    assert(residual.len() == 0);
    assert forall|c: Card| #[trigger] selected.to_multiset().count(c) == 1 by {
        assert(residual.to_multiset().count(c) <= residual.to_multiset().len());
        assert(selected.to_multiset().count(c) == source.to_multiset().count(c));
        lemma_all_cards_complete(c);
        lemma_no_dup_count(all_cards(), c);
    };
    selected.lemma_multiset_has_no_duplicates_conv();
}

/// The random pick is duplicate-free and drawn from the source: a
/// shuffle of a duplicate-free source is duplicate-free, and so is a
/// prefix of it.
proof fn lemma_random_selection_facts(sh: Seq<Card>, sel: Seq<Card>, cards: Seq<Card>, k: int)
    requires
        cards.no_duplicates(),
        sh.to_multiset() == cards.to_multiset(),
        0 <= k <= sh.len(),
        sel == sh.subrange(0, k),
    ensures
        sel.no_duplicates(),
        forall|c: Card| sel.contains(c) ==> cards.contains(c),
{
    broadcast use vstd::multiset::group_multiset_axioms;
    broadcast use vstd::seq_lib::group_to_multiset_ensures;

    assert forall|x: Card| sh.to_multiset().contains(x) implies sh.to_multiset().count(x)
        == 1 by {
        lemma_no_dup_count(cards, x);
    };
    sh.lemma_multiset_has_no_duplicates_conv();
    assert forall|i: int, j: int| 0 <= i < j < sel.len() implies sel[i] != sel[j] by {
        assert(sel[i] == sh[i]);
        assert(sel[j] == sh[j]);
    };
    assert forall|c: Card| sel.contains(c) implies cards.contains(c) by {
        let i = choose|i: int| 0 <= i < sel.len() && sel[i] == c;
        assert(sh[i] == c);
        assert(sh.contains(c));
        assert(sh.to_multiset().count(c) > 0);
        assert(cards.to_multiset().count(c) > 0);
    };
}

/// Copies the cards at positions `from..to`.
fn copy_range(v: &Vec<Card>, from: usize, to: usize) -> (r: Vec<Card>)
    requires
        from <= to <= v@.len(),
    ensures
        r@ == v@.subrange(from as int, to as int),
{
    let mut r: Vec<Card> = Vec::new();
    let mut i: usize = from;
    proof {
        assert(r@ =~= v@.subrange(from as int, from as int));
    }
    while i < to
        invariant
            from <= i <= to <= v@.len(),
            r@ == v@.subrange(from as int, i as int),
        decreases to - i,
    {
        r.push(v[i]);
        i = i + 1;
        proof {
            assert(v@.subrange(from as int, i as int) =~= v@.subrange(from as int, i - 1).push(
                v@[i - 1],
            ));
        }
    }
    r
}

/// Whether `v` holds `c`.
pub(crate) fn contains_card(v: &Vec<Card>, c: Card) -> (r: bool)
    ensures
        r == v@.contains(c),
{
    let mut i: usize = 0;
    while i < v.len()
        invariant
            i <= v@.len(),
            forall|k: int| 0 <= k < i ==> v@[k] != c,
        decreases v@.len() - i,
    {
        if v[i] == c {
            return true;
        }
        i = i + 1;
    }
    false
}

/// Splits `cards` by membership in `list`, keeping the source's order on
/// both sides.
pub(crate) fn split_by_list(cards: &Vec<Card>, list: &Vec<Card>) -> (pair: (Vec<Card>, Vec<Card>))
    ensures
        pair.0@ == cards@.filter(in_list_pred(list@)),
        pair.1@ == cards@.filter(not_pred(in_list_pred(list@))),
{
    let mut inl: Vec<Card> = Vec::new();
    let mut outl: Vec<Card> = Vec::new();
    let mut i: usize = 0;
    proof {
        reveal(Seq::filter);
        assert(cards@.subrange(0, 0) =~= Seq::<Card>::empty());
    }
    while i < cards.len()
        invariant
            i <= cards@.len(),
            inl@ == cards@.subrange(0, i as int).filter(in_list_pred(list@)),
            outl@ == cards@.subrange(0, i as int).filter(not_pred(in_list_pred(list@))),
        decreases cards@.len() - i,
    {
        let c = cards[i];
        if contains_card(list, c) {
            inl.push(c);
        } else {
            outl.push(c);
        }
        i = i + 1;
        proof {
            reveal(Seq::filter);
            let post = cards@.subrange(0, i as int);
            assert(post.drop_last() =~= cards@.subrange(0, i - 1));
            assert(post.last() == c);
            assert(in_list_pred(list@)(c) == list@.contains(c));
            assert(not_pred(in_list_pred(list@))(c) == !list@.contains(c));
        }
    }
    proof {
        assert(cards@.subrange(0, cards@.len() as int) =~= cards@);
    }
    (inl, outl)
}

/// Splits `cards` by the suit/rank filter, keeping the source's order on
/// both sides.
fn split_by_filter(
    cards: &Vec<Card>,
    suits: &StringCodes<CardSuit>,
    values: &StringCodes<CardValue>,
) -> (pair: (Vec<Card>, Vec<Card>))
    ensures
        pair.0@ == cards@.filter(filter_pred(suits@, values@)),
        pair.1@ == cards@.filter(not_pred(filter_pred(suits@, values@))),
{
    let mut inl: Vec<Card> = Vec::new();
    let mut outl: Vec<Card> = Vec::new();
    let mut i: usize = 0;
    let no_suits = suits.len() == 0;
    let no_values = values.len() == 0;
    proof {
        reveal(Seq::filter);
        assert(cards@.subrange(0, 0) =~= Seq::<Card>::empty());
    }
    while i < cards.len()
        invariant
            i <= cards@.len(),
            no_suits == (suits@.len() == 0),
            no_values == (values@.len() == 0),
            inl@ == cards@.subrange(0, i as int).filter(filter_pred(suits@, values@)),
            outl@ == cards@.subrange(0, i as int).filter(not_pred(filter_pred(suits@, values@))),
        decreases cards@.len() - i,
    {
        let c = cards[i];
        let m = if no_suits && no_values {
            false
        } else {
            let suit_ok = no_suits || suits.contains(&c.suit);
            let value_ok = no_values || values.contains(&c.value);
            suit_ok && value_ok
        };
        proof {
            assert(m == matches_filter(c, suits@, values@));
            assert(filter_pred(suits@, values@)(c) == matches_filter(c, suits@, values@));
            assert(not_pred(filter_pred(suits@, values@))(c) == !matches_filter(
                c,
                suits@,
                values@,
            ));
        }
        if m {
            inl.push(c);
        } else {
            outl.push(c);
        }
        i = i + 1;
        proof {
            reveal(Seq::filter);
            let post = cards@.subrange(0, i as int);
            assert(post.drop_last() =~= cards@.subrange(0, i - 1));
            assert(post.last() == c);
        }
    }
    proof {
        assert(cards@.subrange(0, cards@.len() as int) =~= cards@);
    }
    (inl, outl)
}

} // verus!
