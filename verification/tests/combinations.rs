use piquet::cards::{Card, Hand, Rank, Suit};
use piquet::combinations::{
    get_combinations, get_smaller_combinations, is_carte_blanche, Combination, CombinationType,
};
use piquet::game::PiquetError;
use std::cmp::Ordering;

fn c(rank: Rank, suit: Suit) -> Card {
    Card::new(rank, suit)
}

fn nine_cards() -> Hand {
    Hand::new(vec![
        Card::new(Rank::Seven, Suit::Diamond),
        Card::new(Rank::King, Suit::Diamond),
        Card::new(Rank::King, Suit::Heart),
        Card::new(Rank::King, Suit::Spade),
        Card::new(Rank::Seven, Suit::Heart),
        Card::new(Rank::Eight, Suit::Spade),
        Card::new(Rank::Nine, Suit::Spade),
        Card::new(Rank::Ten, Suit::Spade),
        Card::new(Rank::Jack, Suit::Spade),
    ])
}

fn spades(ranks: &[Rank]) -> Hand {
    Hand::new(ranks.iter().map(|rank| c(*rank, Suit::Spade)).collect())
}

fn of_size(family: CombinationType, size: usize) -> Combination {
    let ranks = [
        Rank::Seven,
        Rank::Eight,
        Rank::Nine,
        Rank::Ten,
        Rank::Jack,
        Rank::Queen,
        Rank::King,
        Rank::Ace,
    ];
    let suits = [Suit::Heart, Suit::Diamond, Suit::Spade, Suit::Club];
    let cards = match family {
        CombinationType::RankSet => (0..size).map(|i| c(Rank::King, suits[i % 4])).collect(),
        _ => (0..size).map(|i| c(ranks[i % 8], Suit::Spade)).collect(),
    };
    Combination::new(family, Hand::new(cards))
}

#[test]
fn test_get_combinations() {
    let hand = Hand::new(vec![
        Card::new(Rank::Seven, Suit::Diamond),
        Card::new(Rank::King, Suit::Diamond),
        Card::new(Rank::King, Suit::Heart),
        Card::new(Rank::King, Suit::Spade),
        Card::new(Rank::Seven, Suit::Heart),
        Card::new(Rank::Eight, Suit::Spade),
        Card::new(Rank::Nine, Suit::Spade),
        Card::new(Rank::Ten, Suit::Spade),
        Card::new(Rank::Jack, Suit::Spade),
    ]);
    let ctype = CombinationType::RankSet;
    let combs_set = get_combinations(&ctype, &hand);
    let mut expected_hand = Hand::new(vec![
        Card::new(Rank::King, Suit::Diamond),
        Card::new(Rank::King, Suit::Heart),
        Card::new(Rank::King, Suit::Spade),
    ]);
    expected_hand.sort_by_suit();
    assert_eq!(combs_set, vec![Combination::new(ctype.clone(), expected_hand)]);

    let ctype = CombinationType::Sequence;
    let combs_set = get_combinations(&ctype, &hand);
    let expected_hand = Hand::new(vec![
        Card::new(Rank::Eight, Suit::Spade),
        Card::new(Rank::Nine, Suit::Spade),
        Card::new(Rank::Ten, Suit::Spade),
        Card::new(Rank::Jack, Suit::Spade),
    ]);
    assert_eq!(combs_set, vec![Combination::new(ctype.clone(), expected_hand)]);
}

#[test]
fn test_carteblanche() {
    let hand = Hand::new(vec![
        Card::new(Rank::Seven, Suit::Diamond),
        Card::new(Rank::King, Suit::Diamond),
        Card::new(Rank::King, Suit::Heart),
        Card::new(Rank::King, Suit::Spade),
        Card::new(Rank::Seven, Suit::Heart),
        Card::new(Rank::Eight, Suit::Spade),
        Card::new(Rank::Nine, Suit::Spade),
        Card::new(Rank::Ten, Suit::Spade),
        Card::new(Rank::Jack, Suit::Spade),
    ]);
    assert!(!is_carte_blanche(hand));
    let hand = Hand::new(vec![
        Card::new(Rank::Seven, Suit::Diamond),
        Card::new(Rank::Seven, Suit::Heart),
        Card::new(Rank::Eight, Suit::Spade),
        Card::new(Rank::Nine, Suit::Spade),
        Card::new(Rank::Ten, Suit::Spade),
    ]);
    assert!(is_carte_blanche(hand));
}

#[test]
fn carte_blanche_edges() {
    assert!(is_carte_blanche(Hand::empty_hand()));
    assert!(is_carte_blanche(Hand::new(vec![c(Rank::Ace, Suit::Club), c(Rank::Ten, Suit::Club)])));
    assert!(!is_carte_blanche(Hand::new(vec![c(Rank::Jack, Suit::Club)])));
    assert!(!is_carte_blanche(Hand::new(vec![c(Rank::Seven, Suit::Club), c(Rank::Queen, Suit::Heart)])));
}

#[test]
fn the_exact_cards_of_the_found_combinations() {
    let hand = nine_cards();
    let sets = get_combinations(&CombinationType::RankSet, &hand);
    assert_eq!(sets.len(), 1);
    assert_eq!(sets[0].family(), CombinationType::RankSet);
    assert_eq!(
        sets[0].hand().clone().cards(),
        vec![c(Rank::King, Suit::Heart), c(Rank::King, Suit::Diamond), c(Rank::King, Suit::Spade)]
    );
    let sequences = get_combinations(&CombinationType::Sequence, &hand);
    assert_eq!(sequences.len(), 1);
    assert_eq!(sequences[0].family(), CombinationType::Sequence);
    assert_eq!(
        sequences[0].hand().clone().cards(),
        vec![
            c(Rank::Eight, Suit::Spade),
            c(Rank::Nine, Suit::Spade),
            c(Rank::Ten, Suit::Spade),
            c(Rank::Jack, Suit::Spade)
        ]
    );
    // the hand itself is left as it was
    assert_eq!(hand, nine_cards());
}

#[test]
fn points_part_the_hand() {
    let hand = nine_cards();
    let points = get_combinations(&CombinationType::Point, &hand);
    assert_eq!(points.len(), 3);
    let groups: Vec<Vec<Card>> = points.iter().map(|p| p.hand().clone().cards()).collect();
    assert_eq!(groups[0], vec![c(Rank::Seven, Suit::Heart), c(Rank::King, Suit::Heart)]);
    assert_eq!(groups[1], vec![c(Rank::Seven, Suit::Diamond), c(Rank::King, Suit::Diamond)]);
    assert_eq!(
        groups[2],
        vec![
            c(Rank::Eight, Suit::Spade),
            c(Rank::Nine, Suit::Spade),
            c(Rank::Ten, Suit::Spade),
            c(Rank::Jack, Suit::Spade),
            c(Rank::King, Suit::Spade)
        ]
    );
    let together: Vec<Card> = groups.concat();
    let mut sorted = hand.clone();
    sorted.sort_by_suit();
    assert_eq!(together, sorted.cards());
    for p in points.iter() {
        assert_eq!(p.family(), CombinationType::Point);
        assert_eq!(p.points(), p.hand().len());
    }
}

#[test]
fn nothing_is_found_in_an_empty_hand() {
    let hand = Hand::empty_hand();
    assert!(get_combinations(&CombinationType::Point, &hand).is_empty());
    assert!(get_combinations(&CombinationType::Sequence, &hand).is_empty());
    assert!(get_combinations(&CombinationType::RankSet, &hand).is_empty());
}

#[test]
fn every_sequence_found_is_a_run_of_one_suit() {
    let hand = Hand::new(vec![
        c(Rank::Queen, Suit::Heart),
        c(Rank::Seven, Suit::Club),
        c(Rank::Jack, Suit::Heart),
        c(Rank::Nine, Suit::Club),
        c(Rank::King, Suit::Heart),
        c(Rank::Eight, Suit::Club),
        c(Rank::Ace, Suit::Heart),
        c(Rank::Ten, Suit::Club),
        c(Rank::Seven, Suit::Heart),
        c(Rank::Eight, Suit::Heart),
        c(Rank::Queen, Suit::Club),
        c(Rank::King, Suit::Club),
    ]);
    let sequences = get_combinations(&CombinationType::Sequence, &hand);
    assert_eq!(sequences.len(), 2);
    assert_eq!(
        sequences[0].hand().clone().cards(),
        vec![
            c(Rank::Jack, Suit::Heart),
            c(Rank::Queen, Suit::Heart),
            c(Rank::King, Suit::Heart),
            c(Rank::Ace, Suit::Heart)
        ]
    );
    assert_eq!(
        sequences[1].hand().clone().cards(),
        vec![
            c(Rank::Seven, Suit::Club),
            c(Rank::Eight, Suit::Club),
            c(Rank::Nine, Suit::Club),
            c(Rank::Ten, Suit::Club)
        ]
    );
    for s in sequences.iter() {
        let cards = s.hand().clone().cards();
        assert!(cards.len() >= 3);
        for pair in cards.windows(2) {
            assert_eq!(pair[0].suit, pair[1].suit);
            assert_eq!(pair[0].rank.succ(), Some(pair[1].rank));
        }
    }
}

#[test]
fn every_set_found_is_of_one_rank_above_the_nine() {
    let hand = Hand::new(vec![
        c(Rank::Nine, Suit::Heart),
        c(Rank::Nine, Suit::Club),
        c(Rank::Nine, Suit::Spade),
        c(Rank::Nine, Suit::Diamond),
        c(Rank::Ten, Suit::Heart),
        c(Rank::Ten, Suit::Club),
        c(Rank::Ten, Suit::Spade),
        c(Rank::Ace, Suit::Club),
        c(Rank::Ace, Suit::Heart),
        c(Rank::Ace, Suit::Diamond),
        c(Rank::Ace, Suit::Spade),
        c(Rank::King, Suit::Heart),
        c(Rank::King, Suit::Spade),
    ]);
    let sets = get_combinations(&CombinationType::RankSet, &hand);
    assert_eq!(sets.len(), 2);
    assert_eq!(
        sets[0].hand().clone().cards(),
        vec![c(Rank::Ten, Suit::Heart), c(Rank::Ten, Suit::Spade), c(Rank::Ten, Suit::Club)]
    );
    assert_eq!(
        sets[1].hand().clone().cards(),
        vec![
            c(Rank::Ace, Suit::Heart),
            c(Rank::Ace, Suit::Diamond),
            c(Rank::Ace, Suit::Spade),
            c(Rank::Ace, Suit::Club)
        ]
    );
    for s in sets.iter() {
        let cards = s.hand().clone().cards();
        assert!(cards.len() >= 3);
        for card in cards.iter() {
            assert_eq!(card.rank, cards[0].rank);
            assert!(card.rank > Rank::Nine);
        }
    }
}

#[test]
fn a_pair_is_no_set_and_two_in_a_row_no_sequence() {
    let hand = Hand::new(vec![
        c(Rank::King, Suit::Heart),
        c(Rank::King, Suit::Spade),
        c(Rank::Seven, Suit::Club),
        c(Rank::Eight, Suit::Club),
        c(Rank::Ten, Suit::Club),
    ]);
    assert!(get_combinations(&CombinationType::RankSet, &hand).is_empty());
    assert!(get_combinations(&CombinationType::Sequence, &hand).is_empty());
    assert_eq!(get_combinations(&CombinationType::Point, &hand).len(), 3);
}

#[test]
fn points_of_combinations() {
    assert_eq!(of_size(CombinationType::RankSet, 3).points(), 3);
    assert_eq!(of_size(CombinationType::RankSet, 4).points(), 14);
    assert_eq!(of_size(CombinationType::Sequence, 3).points(), 3);
    assert_eq!(of_size(CombinationType::Sequence, 4).points(), 4);
    assert_eq!(of_size(CombinationType::Sequence, 5).points(), 15);
    assert_eq!(of_size(CombinationType::Sequence, 6).points(), 16);
    assert_eq!(of_size(CombinationType::Sequence, 8).points(), 18);
    assert_eq!(of_size(CombinationType::Point, 5).points(), 5);
    assert_eq!(of_size(CombinationType::Point, 0).points(), 0);
}

#[test]
fn names_of_declarations() {
    let name = |family, size| of_size(family, size).show_declaration();
    assert_eq!(name(CombinationType::RankSet, 3), Ok(String::from("Trio")));
    assert_eq!(name(CombinationType::RankSet, 4), Ok(String::from("Quatorze")));
    assert_eq!(name(CombinationType::Sequence, 3), Ok(String::from("Tierce")));
    assert_eq!(name(CombinationType::Sequence, 4), Ok(String::from("Quart")));
    assert_eq!(name(CombinationType::Sequence, 5), Ok(String::from("Cinquième")));
    assert_eq!(name(CombinationType::Sequence, 6), Ok(String::from("Sixième")));
    assert_eq!(name(CombinationType::Sequence, 7), Ok(String::from("Septième")));
    assert_eq!(name(CombinationType::Sequence, 8), Ok(String::from("Huitième")));
    assert_eq!(name(CombinationType::Point, 5), Ok(String::from("Point of 5")));
    assert_eq!(name(CombinationType::Point, 0), Ok(String::from("Point of 0")));
    assert_eq!(name(CombinationType::Point, 12), Ok(String::from("Point of 12")));
    assert_eq!(name(CombinationType::Point, 107), Ok(String::from("Point of 107")));
}

#[test]
fn a_length_without_a_name_is_an_invalid_combination() {
    for size in [0usize, 1, 2, 5, 9] {
        assert_eq!(
            of_size(CombinationType::RankSet, size).show_declaration(),
            Err(PiquetError::InvalidCombination)
        );
        assert_eq!(
            of_size(CombinationType::RankSet, size).show_declaration_complete(),
            Err(PiquetError::InvalidCombination)
        );
    }
    for size in [0usize, 1, 2, 9, 10] {
        assert_eq!(
            of_size(CombinationType::Sequence, size).show_declaration(),
            Err(PiquetError::InvalidCombination)
        );
        assert_eq!(
            of_size(CombinationType::Sequence, size).show_declaration_complete(),
            Err(PiquetError::InvalidCombination)
        );
    }
}

#[test]
fn full_declarations() {
    let point = Combination::new(
        CombinationType::Point,
        spades(&[Rank::Eight, Rank::Nine, Rank::Ten, Rank::Jack, Rank::King]),
    );
    assert_eq!(point.show_declaration_complete(), Ok(String::from("Point of 5 totaling 47")));
    let quart = Combination::new(
        CombinationType::Sequence,
        spades(&[Rank::Eight, Rank::Nine, Rank::Ten, Rank::Jack]),
    );
    assert_eq!(quart.show_declaration_complete(), Ok(String::from("Quart to J ♠")));
    let trio = Combination::new(
        CombinationType::RankSet,
        Hand::new(vec![c(Rank::King, Suit::Heart), c(Rank::King, Suit::Diamond), c(Rank::King, Suit::Spade)]),
    );
    assert_eq!(trio.show_declaration_complete(), Ok(String::from("Trio of K ♠")));
    let nothing = Combination::new(CombinationType::Point, Hand::empty_hand());
    assert_eq!(nothing.show_declaration_complete(), Ok(String::from("Point of 0 totaling 0")));
}

#[test]
fn more_cards_stand_above_fewer() {
    let five = of_size(CombinationType::Point, 5);
    let four = Combination::new(
        CombinationType::Point,
        Hand::new(vec![
            c(Rank::Ace, Suit::Heart),
            c(Rank::King, Suit::Heart),
            c(Rank::Queen, Suit::Heart),
            c(Rank::Jack, Suit::Heart),
        ]),
    );
    assert_eq!(five.cmp(&four), Ordering::Greater);
    assert_eq!(four.cmp(&five), Ordering::Less);
    assert_eq!(five.stands(&four), 1);
    assert_eq!(four.stands(&five), -1);
    assert!(four < five);
    assert!(five > four);
    assert_eq!(five.partial_cmp(&four), Some(Ordering::Greater));
    assert_eq!(five.compare_length(four.clone()), Ordering::Greater);
    assert_eq!(four.compare_length(five.clone()), Ordering::Less);
    assert_eq!(four.compare_length(four.clone()), Ordering::Equal);
}

#[test]
fn with_as_many_cards_a_point_goes_by_its_total() {
    let low = Combination::new(CombinationType::Point, spades(&[Rank::Seven, Rank::Eight, Rank::Nine]));
    let high = Combination::new(CombinationType::Point, spades(&[Rank::Seven, Rank::Eight, Rank::Ace]));
    let level = Combination::new(
        CombinationType::Point,
        Hand::new(vec![c(Rank::Seven, Suit::Club), c(Rank::Eight, Suit::Club), c(Rank::Nine, Suit::Club)]),
    );
    assert_eq!(low.cmp(&high), Ordering::Less);
    assert_eq!(high.cmp(&low), Ordering::Greater);
    assert_eq!(low.cmp(&level), Ordering::Equal);
    assert_eq!(low.stands(&level), 0);
    let ten = Combination::new(CombinationType::Point, spades(&[Rank::Seven, Rank::Eight, Rank::Ten]));
    let king = Combination::new(CombinationType::Point, spades(&[Rank::Seven, Rank::Eight, Rank::King]));
    assert_eq!(ten.cmp(&king), Ordering::Equal);
}

#[test]
fn with_as_many_cards_sequences_and_sets_go_by_the_highest_card() {
    let to_ten = Combination::new(CombinationType::Sequence, spades(&[Rank::Eight, Rank::Nine, Rank::Ten]));
    let to_jack = Combination::new(CombinationType::Sequence, spades(&[Rank::Nine, Rank::Ten, Rank::Jack]));
    assert_eq!(to_ten.cmp(&to_jack), Ordering::Less);
    assert_eq!(to_jack.cmp(&to_ten), Ordering::Greater);
    let to_ten_in_hearts = Combination::new(
        CombinationType::Sequence,
        Hand::new(vec![c(Rank::Eight, Suit::Heart), c(Rank::Nine, Suit::Heart), c(Rank::Ten, Suit::Heart)]),
    );
    assert_eq!(to_ten_in_hearts.cmp(&to_ten), Ordering::Less);
    let kings = of_size(CombinationType::RankSet, 3);
    let aces = Combination::new(
        CombinationType::RankSet,
        Hand::new(vec![c(Rank::Ace, Suit::Heart), c(Rank::Ace, Suit::Diamond), c(Rank::Ace, Suit::Spade)]),
    );
    assert_eq!(kings.cmp(&aces), Ordering::Less);
    assert_eq!(aces.cmp(&kings), Ordering::Greater);
    assert_eq!(kings.cmp(&kings.clone()), Ordering::Equal);
}

#[test]
fn combinations_of_different_families_stand_level() {
    let point = of_size(CombinationType::Point, 5);
    let trio = of_size(CombinationType::RankSet, 3);
    assert_eq!(point.cmp(&trio), Ordering::Equal);
    assert_eq!(trio.cmp(&point), Ordering::Equal);
    assert!(point == trio);
    let other_point = of_size(CombinationType::Point, 4);
    assert!(point != other_point);
    assert!(point == of_size(CombinationType::Point, 5));
}

#[test]
fn smaller_combinations_are_those_strictly_below() {
    let three = of_size(CombinationType::Sequence, 3);
    let four = of_size(CombinationType::Sequence, 4);
    let five = of_size(CombinationType::Sequence, 5);
    let all = vec![five.clone(), three.clone(), four.clone()];
    let below_five = get_smaller_combinations(Some(five.clone()), all.clone());
    assert_eq!(below_five.len(), 2);
    assert_eq!(below_five[0].hand(), three.hand());
    assert_eq!(below_five[1].hand(), four.hand());
    let below_four = get_smaller_combinations(Some(four.clone()), all.clone());
    assert_eq!(below_four.len(), 1);
    assert_eq!(below_four[0].hand(), three.hand());
    assert!(get_smaller_combinations(Some(three.clone()), all.clone()).is_empty());
    assert!(get_smaller_combinations(None, all).is_empty());
    assert!(get_smaller_combinations(Some(five), Vec::new()).is_empty());
}

#[test]
fn a_combination_is_checked_when_it_is_made() {
    let made = Combination::checked(
        CombinationType::Sequence,
        spades(&[Rank::Eight, Rank::Nine, Rank::Ten]),
    );
    assert!(made.is_ok());
    assert_eq!(made.unwrap().show_declaration(), Ok(String::from("Tierce")));
    let broken = |family, hand| Combination::checked(family, hand).err();
    // a gap in the ranks, a card of another suit, two cards only, a rank twice
    assert_eq!(
        broken(CombinationType::Sequence, spades(&[Rank::Eight, Rank::Nine, Rank::Jack])),
        Some(PiquetError::InvalidCombination)
    );
    assert_eq!(
        broken(
            CombinationType::Sequence,
            Hand::new(vec![c(Rank::Eight, Suit::Spade), c(Rank::Nine, Suit::Club), c(Rank::Ten, Suit::Spade)])
        ),
        Some(PiquetError::InvalidCombination)
    );
    assert_eq!(
        broken(CombinationType::Sequence, spades(&[Rank::Eight, Rank::Nine])),
        Some(PiquetError::InvalidCombination)
    );
    assert_eq!(
        broken(CombinationType::Sequence, spades(&[Rank::Eight, Rank::Eight, Rank::Nine])),
        Some(PiquetError::InvalidCombination)
    );
    assert_eq!(
        broken(CombinationType::Sequence, spades(&[Rank::Ten, Rank::Nine, Rank::Eight])),
        Some(PiquetError::InvalidCombination)
    );
    assert_eq!(broken(CombinationType::Sequence, of_size(CombinationType::Sequence, 9).hand().clone()),
        Some(PiquetError::InvalidCombination));
    assert!(of_size(CombinationType::Sequence, 8).is_valid());
    // sets: three of a rank above the nine
    assert!(of_size(CombinationType::RankSet, 3).is_valid());
    assert!(of_size(CombinationType::RankSet, 4).is_valid());
    assert!(!of_size(CombinationType::RankSet, 2).is_valid());
    let nines = Hand::new(vec![c(Rank::Nine, Suit::Heart), c(Rank::Nine, Suit::Spade), c(Rank::Nine, Suit::Club)]);
    assert_eq!(broken(CombinationType::RankSet, nines), Some(PiquetError::InvalidCombination));
    let mixed = Hand::new(vec![c(Rank::King, Suit::Heart), c(Rank::King, Suit::Spade), c(Rank::Ace, Suit::Club)]);
    assert_eq!(broken(CombinationType::RankSet, mixed.clone()), Some(PiquetError::InvalidCombination));
    // points: one suit, one card at least
    assert_eq!(broken(CombinationType::Point, mixed), Some(PiquetError::InvalidCombination));
    assert_eq!(broken(CombinationType::Point, Hand::empty_hand()), Some(PiquetError::InvalidCombination));
    assert!(Combination::checked(CombinationType::Point, spades(&[Rank::Ace])).is_ok());
    assert!(Combination::checked(CombinationType::Point, spades(&[Rank::Ace, Rank::Seven, Rank::Ten])).is_ok());
}

#[test]
fn what_is_found_in_a_hand_is_valid() {
    let hand = nine_cards();
    for family in [CombinationType::Point, CombinationType::Sequence, CombinationType::RankSet] {
        for found in get_combinations(&family, &hand) {
            assert!(found.is_valid());
            assert_eq!(found.family(), family);
        }
    }
}

#[test]
fn families_and_combinations_as_text() {
    assert_eq!(CombinationType::Point.to_text(), "Point");
    assert_eq!(CombinationType::Sequence.to_text(), "Sequence");
    assert_eq!(CombinationType::RankSet.to_text(), "Set");
    let tierce = Combination::new(
        CombinationType::Sequence,
        spades(&[Rank::Eight, Rank::Nine, Rank::Ten]),
    );
    assert_eq!(tierce.to_text(), "Sequence : 8 ♠ 9 ♠ 10 ♠ ");
    assert_eq!(tierce.hand().to_text(), "8 ♠ 9 ♠ 10 ♠ ");
    assert_eq!(Hand::empty_hand().to_text(), " ");
    assert_eq!(spades(&[Rank::Ace]).to_text(), "A ♠ ");
}
