use piquet::cards::{Card, Deck, Hand, Rank, Suit};
use piquet::game::Game;

fn card(rank: Rank, suit: Suit) -> Card {
    Card::new(rank, suit)
}

fn by_suit(cards: Vec<Card>) -> Vec<Card> {
    let mut hand = Hand::new(cards);
    hand.sort_by_suit();
    hand.cards()
}

#[test]
fn test_deck() {
    let deck = Deck::new();
    let cards = deck.get_cards();
    assert_eq!(cards.len(), 32);
}

#[test]
fn test_sort_hand() {
    let mut hand = Hand::new(vec![
        Card::new(Rank::Seven, Suit::Diamond),
        Card::new(Rank::King, Suit::Diamond),
        Card::new(Rank::Seven, Suit::Heart),
        Card::new(Rank::Eight, Suit::Spade),
    ]);
    hand.sort_by_rank();
    assert_eq!(
        hand,
        Hand::new(vec![
            Card::new(Rank::Seven, Suit::Heart),
            Card::new(Rank::Seven, Suit::Diamond),
            Card::new(Rank::Eight, Suit::Spade),
            Card::new(Rank::King, Suit::Diamond),
        ])
    );
    hand.sort_by_suit();
    assert_eq!(
        hand,
        Hand::new(vec![
            Card::new(Rank::Seven, Suit::Heart),
            Card::new(Rank::Seven, Suit::Diamond),
            Card::new(Rank::King, Suit::Diamond),
            Card::new(Rank::Eight, Suit::Spade),
        ])
    );
}

#[test]
fn new_deck_holds_every_card_once() {
    let deck = Deck::new();
    let cards = deck.get_cards();
    assert_eq!(cards.len(), 32);
    for i in 0..cards.len() {
        for j in (i + 1)..cards.len() {
            assert_ne!(cards[i], cards[j]);
        }
    }
    assert_eq!(cards[0], card(Rank::Seven, Suit::Heart));
    assert_eq!(cards[1], card(Rank::Seven, Suit::Diamond));
    assert_eq!(cards[2], card(Rank::Seven, Suit::Spade));
    assert_eq!(cards[3], card(Rank::Seven, Suit::Club));
    assert_eq!(cards[4], card(Rank::Eight, Suit::Heart));
    assert_eq!(cards[31], card(Rank::Ace, Suit::Club));
}

#[test]
fn empty_deck_holds_nothing() {
    assert_eq!(Deck::empty_deck().get_cards().len(), 0);
    assert_eq!(Hand::empty_hand().len(), 0);
}

#[test]
fn shuffle_permutes_the_deck() {
    let game = Game::new([7u8; 16]);
    let shuffled = game.deck().clone();
    let fresh = Deck::new();
    assert_eq!(shuffled.get_cards().len(), 32);
    assert!(shuffled != fresh);
    assert_eq!(by_suit(shuffled.get_cards().clone()), by_suit(fresh.get_cards().clone()));
}

#[test]
fn shuffle_is_fixed_by_the_seed() {
    let one = Game::new([42u8; 16]);
    let other = Game::new([42u8; 16]);
    assert!(one.deck() == other.deck());
    let third = Game::new([43u8; 16]);
    assert!(one.deck() != third.deck());
}

#[test]
fn sort_by_suit_twice_changes_nothing() {
    let mut hand = Hand::new(vec![
        card(Rank::Ace, Suit::Club),
        card(Rank::Seven, Suit::Spade),
        card(Rank::Ten, Suit::Heart),
        card(Rank::Nine, Suit::Club),
        card(Rank::Queen, Suit::Diamond),
        card(Rank::Seven, Suit::Heart),
    ]);
    hand.sort_by_suit();
    let once = hand.clone();
    assert_eq!(
        once,
        Hand::new(vec![
            card(Rank::Seven, Suit::Heart),
            card(Rank::Ten, Suit::Heart),
            card(Rank::Queen, Suit::Diamond),
            card(Rank::Seven, Suit::Spade),
            card(Rank::Nine, Suit::Club),
            card(Rank::Ace, Suit::Club),
        ])
    );
    hand.sort_by_suit();
    assert_eq!(hand, once);
    hand.sort_by_rank();
    let ranked = hand.clone();
    hand.sort_by_rank();
    assert_eq!(hand, ranked);
}

#[test]
fn sort_keeps_equal_cards() {
    let mut hand = Hand::new(vec![
        card(Rank::King, Suit::Spade),
        card(Rank::Seven, Suit::Heart),
        card(Rank::King, Suit::Spade),
    ]);
    hand.sort_by_rank();
    assert_eq!(
        hand,
        Hand::new(vec![
            card(Rank::Seven, Suit::Heart),
            card(Rank::King, Suit::Spade),
            card(Rank::King, Suit::Spade),
        ])
    );
}

#[test]
fn rank_successors_run_from_seven_to_ace() {
    let mut rank = Rank::Seven;
    let mut steps = 0;
    while let Some(next) = rank.succ() {
        assert!(next > rank);
        rank = next;
        steps += 1;
    }
    assert_eq!(rank, Rank::Ace);
    assert_eq!(steps, 7);
    assert_eq!(Rank::Nine.succ(), Some(Rank::Ten));
    assert_eq!(Rank::Ace.succ(), None);
}

#[test]
fn point_values_of_the_ranks() {
    assert_eq!(Rank::Seven.point_value(), 7);
    assert_eq!(Rank::Eight.point_value(), 8);
    assert_eq!(Rank::Nine.point_value(), 9);
    assert_eq!(Rank::Ten.point_value(), 10);
    assert_eq!(Rank::Jack.point_value(), 10);
    assert_eq!(Rank::Queen.point_value(), 10);
    assert_eq!(Rank::King.point_value(), 10);
    assert_eq!(Rank::Ace.point_value(), 11);
    assert_eq!(card(Rank::Ace, Suit::Club).point_value(), 11);
}

#[test]
fn point_value_of_a_hand_is_the_sum() {
    let hand = Hand::new(vec![
        card(Rank::Seven, Suit::Heart),
        card(Rank::Eight, Suit::Heart),
        card(Rank::King, Suit::Spade),
        card(Rank::Ace, Suit::Club),
    ]);
    assert_eq!(hand.point_value(), 36);
    assert_eq!(hand.point_total(), 36);
    assert_eq!(Hand::empty_hand().point_value(), 0);
    assert_eq!(hand.len(), 4);
}

#[test]
fn max_is_by_rank_then_suit() {
    let hand = Hand::new(vec![
        card(Rank::King, Suit::Club),
        card(Rank::Ace, Suit::Heart),
        card(Rank::Seven, Suit::Club),
    ]);
    assert_eq!(hand.max(), Some(&card(Rank::Ace, Suit::Heart)));
    let kings = Hand::new(vec![
        card(Rank::King, Suit::Diamond),
        card(Rank::King, Suit::Club),
        card(Rank::King, Suit::Heart),
    ]);
    assert_eq!(kings.max(), Some(&card(Rank::King, Suit::Club)));
    assert_eq!(Hand::empty_hand().max(), None);
}

#[test]
fn orders_of_suits_and_ranks() {
    let suits: Vec<Suit> = Suit::iter().cloned().collect();
    assert_eq!(suits, vec![Suit::Heart, Suit::Diamond, Suit::Spade, Suit::Club]);
    let ranks: Vec<Rank> = Rank::iter().cloned().collect();
    assert_eq!(
        ranks,
        vec![
            Rank::Seven,
            Rank::Eight,
            Rank::Nine,
            Rank::Ten,
            Rank::Jack,
            Rank::Queen,
            Rank::King,
            Rank::Ace
        ]
    );
    for (i, suit) in suits.iter().enumerate() {
        assert_eq!(suit.index() as usize, i);
    }
    for (i, rank) in ranks.iter().enumerate() {
        assert_eq!(rank.index() as usize, i);
    }
    assert!(card(Rank::Seven, Suit::Club) < card(Rank::Eight, Suit::Heart));
    assert_eq!(card(Rank::Eight, Suit::Heart).rank_place(), 4);
    assert_eq!(card(Rank::Eight, Suit::Heart).suit_place(), 1);
    assert_eq!(card(Rank::Ace, Suit::Club).rank_place(), 31);
    assert_eq!(card(Rank::Ace, Suit::Club).suit_place(), 31);
}

#[test]
fn hand_iter_walks_the_cards_in_order() {
    let cards = vec![card(Rank::Ten, Suit::Spade), card(Rank::Seven, Suit::Heart)];
    let hand = Hand::new(cards.clone());
    let walked: Vec<Card> = hand.iter().cloned().collect();
    assert_eq!(walked, cards);
    assert_eq!(hand.cards(), cards);
}

#[test]
fn cards_as_text() {
    assert_eq!(card(Rank::King, Suit::Spade).to_text(), "K ♠");
    assert_eq!(card(Rank::Ten, Suit::Heart).to_text(), "10 ♥");
    assert_eq!(Rank::Seven.to_text(), "7");
    assert_eq!(Rank::Ace.to_text(), "A");
    assert_eq!(Suit::Diamond.to_text(), "♦");
    assert_eq!(Suit::Club.to_text(), "♣");
}

#[test]
fn taking_a_card_out_of_a_hand() {
    let mut hand = Hand::new(vec![
        card(Rank::Ten, Suit::Spade),
        card(Rank::Seven, Suit::Heart),
        card(Rank::Ten, Suit::Spade),
    ]);
    assert!(hand.contains(&card(Rank::Ten, Suit::Spade)));
    assert!(!hand.contains(&card(Rank::Ten, Suit::Club)));
    assert!(!hand.take_card(&card(Rank::Ten, Suit::Club)));
    assert_eq!(hand.len(), 3);
    assert!(hand.take_card(&card(Rank::Ten, Suit::Spade)));
    assert_eq!(
        hand,
        Hand::new(vec![card(Rank::Seven, Suit::Heart), card(Rank::Ten, Suit::Spade)])
    );
}

#[test]
fn holding_all_of_some_cards() {
    let hand = Hand::new(vec![
        card(Rank::Ten, Suit::Spade),
        card(Rank::Seven, Suit::Heart),
        card(Rank::Ace, Suit::Club),
    ]);
    assert!(hand.holds_all(&Hand::empty_hand()));
    assert!(hand.holds_all(&Hand::new(vec![
        card(Rank::Ace, Suit::Club),
        card(Rank::Ten, Suit::Spade)
    ])));
    assert!(!hand.holds_all(&Hand::new(vec![card(Rank::Ace, Suit::Heart)])));
    assert!(!hand.holds_all(&Hand::new(vec![
        card(Rank::Ace, Suit::Club),
        card(Rank::Ace, Suit::Club)
    ])));
}

#[test]
fn drawing_from_a_pile() {
    let mut pile = Deck::new();
    let drawn = pile.draw(3);
    assert_eq!(
        drawn,
        vec![
            card(Rank::Seven, Suit::Heart),
            card(Rank::Seven, Suit::Diamond),
            card(Rank::Seven, Suit::Spade)
        ]
    );
    assert_eq!(pile.get_cards().len(), 29);
    assert_eq!(pile.get_cards()[0], card(Rank::Seven, Suit::Club));
    let same = Deck::from_cards(pile.get_cards().clone());
    assert!(same == pile);
}
