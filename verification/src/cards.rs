//! Suits, ranks, cards, and the two ordered piles made of them: the deck
//! and the hand.

use crate::random::shuffle_cards;
use rand_xorshift::XorShiftRng;
use vstd::multiset::Multiset;
use vstd::prelude::*;
use vstd::relations::{sorted_by, total_ordering};
use vstd::seq_lib::{group_to_multiset_ensures, lemma_sorted_unique, to_multiset_build};
use vstd::std_specs::cmp::PartialEqSpecImpl;
use vstd::std_specs::iter::IteratorSpec;

verus! {

// ----------- Suit -----------
/// The four suits, in the fixed order that breaks ties between cards of one rank.
#[derive(Debug, Clone, Copy, PartialEq, Eq, PartialOrd, Ord, Hash, Structural)]
pub enum Suit {
    Heart,
    Diamond,
    Spade,
    Club,
}

impl Suit {
    /// Position of the suit in the suit order, from 0 for hearts to 3 for clubs.
    pub open spec fn ord(self) -> int {
        match self {
            Suit::Heart => 0,
            Suit::Diamond => 1,
            Suit::Spade => 2,
            Suit::Club => 3,
        }
    }

    /// The suit at a position of the suit order.
    pub open spec fn of(i: int) -> Suit {
        if i <= 0 {
            Suit::Heart
        } else if i == 1 {
            Suit::Diamond
        } else if i == 2 {
            Suit::Spade
        } else {
            Suit::Club
        }
    }

    /// The suits in ascending order.
    pub open spec fn all() -> Seq<Suit> {
        seq![Suit::Heart, Suit::Diamond, Suit::Spade, Suit::Club]
    }

    /// The sign by which the suit is written.
    pub open spec fn sign(self) -> Seq<char> {
        match self {
            Suit::Heart => "♥"@,
            Suit::Diamond => "♦"@,
            Suit::Spade => "♠"@,
            Suit::Club => "♣"@,
        }
    }

    /// Position of the suit in the suit order.
    pub fn index(&self) -> (i: u8)
        ensures
            i == self.ord(),
    {
        match self {
            Suit::Heart => 0,
            Suit::Diamond => 1,
            Suit::Spade => 2,
            Suit::Club => 3,
        }
    }

    /// Walks the four suits in ascending order.
    pub fn iter() -> (it: std::slice::Iter<'static, Suit>)
        ensures
            it.remaining() == Suit::all().as_ref(),
    {
        let suits: &'static [Suit; 4] = &[Suit::Heart, Suit::Diamond, Suit::Spade, Suit::Club];
        suits.iter()
    }

    /// The suit as text.
    pub fn to_text(&self) -> (s: String)
        ensures
            s@ == self.sign(),
    {
        match self {
            Suit::Heart => String::from_str("♥"),
            Suit::Diamond => String::from_str("♦"),
            Suit::Spade => String::from_str("♠"),
            Suit::Club => String::from_str("♣"),
        }
    }
}

// ----------- Rank -----------
/// The eight ranks of the piquet pack, from the seven up to the ace.
#[derive(Debug, Clone, Copy, PartialEq, Eq, PartialOrd, Ord, Hash, Structural)]
pub enum Rank {
    Seven,
    Eight,
    Nine,
    Ten,
    Jack,
    Queen,
    King,
    Ace,
}

impl Rank {
    /// Position of the rank, from 0 for the seven to 7 for the ace.
    pub open spec fn ord(self) -> int {
        match self {
            Rank::Seven => 0,
            Rank::Eight => 1,
            Rank::Nine => 2,
            Rank::Ten => 3,
            Rank::Jack => 4,
            Rank::Queen => 5,
            Rank::King => 6,
            Rank::Ace => 7,
        }
    }

    /// The rank at a position.
    pub open spec fn of(i: int) -> Rank {
        if i <= 0 {
            Rank::Seven
        } else if i == 1 {
            Rank::Eight
        } else if i == 2 {
            Rank::Nine
        } else if i == 3 {
            Rank::Ten
        } else if i == 4 {
            Rank::Jack
        } else if i == 5 {
            Rank::Queen
        } else if i == 6 {
            Rank::King
        } else {
            Rank::Ace
        }
    }

    /// The ranks in ascending order.
    pub open spec fn all() -> Seq<Rank> {
        seq![
            Rank::Seven,
            Rank::Eight,
            Rank::Nine,
            Rank::Ten,
            Rank::Jack,
            Rank::Queen,
            Rank::King,
            Rank::Ace,
        ]
    }

    /// What a card of this rank counts towards a point: its pips below the
    /// ten, ten for the ten and the court cards, eleven for the ace.
    pub open spec fn points(self) -> nat {
        match self {
            Rank::Seven => 7,
            Rank::Eight => 8,
            Rank::Nine => 9,
            Rank::Ace => 11,
            _ => 10,
        }
    }

    /// The next rank up; the ace has none.
    pub open spec fn successor(self) -> Option<Rank> {
        if self == Rank::Ace {
            None
        } else {
            Some(Rank::of(self.ord() + 1))
        }
    }

    /// The letter or number by which the rank is written.
    pub open spec fn sign(self) -> Seq<char> {
        match self {
            Rank::Seven => "7"@,
            Rank::Eight => "8"@,
            Rank::Nine => "9"@,
            Rank::Ten => "10"@,
            Rank::Jack => "J"@,
            Rank::Queen => "Q"@,
            Rank::King => "K"@,
            Rank::Ace => "A"@,
        }
    }

    /// Position of the rank.
    pub fn index(&self) -> (i: u8)
        ensures
            i == self.ord(),
    {
        match self {
            Rank::Seven => 0,
            Rank::Eight => 1,
            Rank::Nine => 2,
            Rank::Ten => 3,
            Rank::Jack => 4,
            Rank::Queen => 5,
            Rank::King => 6,
            Rank::Ace => 7,
        }
    }

    pub fn point_value(&self) -> (v: u32)
        ensures
            v == self.points(),
    {
        match self {
            Rank::Seven => 7,
            Rank::Eight => 8,
            Rank::Nine => 9,
            Rank::Ace => 11,
            _ => 10,
        }
    }

    /// Walks the eight ranks in ascending order.
    pub fn iter() -> (it: std::slice::Iter<'static, Rank>)
        ensures
            it.remaining() == Rank::all().as_ref(),
    {
        let ranks: &'static [Rank; 8] = &[
            Rank::Seven,
            Rank::Eight,
            Rank::Nine,
            Rank::Ten,
            Rank::Jack,
            Rank::Queen,
            Rank::King,
            Rank::Ace,
        ];
        ranks.iter()
    }

    pub fn succ(&self) -> (next: Option<Self>)
        ensures
            next == self.successor(),
            next matches Some(n) ==> n.ord() == self.ord() + 1,
            next is None <==> *self == Rank::Ace,
    {
        match self {
            Rank::Seven => Some(Rank::Eight),
            Rank::Eight => Some(Rank::Nine),
            Rank::Nine => Some(Rank::Ten),
            Rank::Ten => Some(Rank::Jack),
            Rank::Jack => Some(Rank::Queen),
            Rank::Queen => Some(Rank::King),
            Rank::King => Some(Rank::Ace),
            Rank::Ace => None,
        }
    }

    /// The rank as text.
    pub fn to_text(&self) -> (s: String)
        ensures
            s@ == self.sign(),
    {
        match self {
            Rank::Seven => String::from_str("7"),
            Rank::Eight => String::from_str("8"),
            Rank::Nine => String::from_str("9"),
            Rank::Ten => String::from_str("10"),
            Rank::Jack => String::from_str("J"),
            Rank::Queen => String::from_str("Q"),
            Rank::King => String::from_str("K"),
            Rank::Ace => String::from_str("A"),
        }
    }
}

// ----------- Card -----------
/// A card is its rank and its suit. Two cards are the same card when both agree.
#[derive(Debug, Clone, Copy, PartialEq, Eq, PartialOrd, Ord, Hash, Structural)]
pub struct Card {
    pub rank: Rank,
    pub suit: Suit,
}

impl Card {
    /// Place of the card when cards are ordered by rank, then by suit: the
    /// order in which one card is higher than another.
    pub open spec fn rank_key(self) -> int {
        self.rank.ord() * 4 + self.suit.ord()
    }

    /// Place of the card when cards are ordered by suit, then by rank.
    pub open spec fn suit_key(self) -> int {
        self.suit.ord() * 8 + self.rank.ord()
    }

    /// What the card counts towards a point.
    pub open spec fn points(self) -> nat {
        self.rank.points()
    }

    /// The card as written: rank, a space, suit.
    pub open spec fn sign(self) -> Seq<char> {
        self.rank.sign() + " "@ + self.suit.sign()
    }

    pub fn new(rank: Rank, suit: Suit) -> (card: Self)
        ensures
            card == (Card { rank, suit }),
    {
        Card { rank, suit }
    }

    pub fn point_value(&self) -> (v: u32)
        ensures
            v == self.points(),
    {
        self.rank.point_value()
    }

    /// The card as text.
    pub fn to_text(&self) -> (s: String)
        ensures
            s@ == self.sign(),
    {
        let suit = self.suit.to_text();
        self.rank.to_text().concat(" ").concat(suit.as_str())
    }

    /// Place of the card in the order by rank, then suit.
    pub fn rank_place(&self) -> (k: u8)
        ensures
            k == self.rank_key(),
    {
        self.rank.index() * 4 + self.suit.index()
    }

    /// Place of the card in the order by suit, then rank.
    pub fn suit_place(&self) -> (k: u8)
        ensures
            k == self.suit_key(),
    {
        self.suit.index() * 8 + self.rank.index()
    }
}

/// "Not above", by suit and then by rank.
pub open spec fn suit_order() -> spec_fn(Card, Card) -> bool {
    |a: Card, b: Card| a.suit_key() <= b.suit_key()
}

/// "Not above", by rank and then by suit.
pub open spec fn rank_order() -> spec_fn(Card, Card) -> bool {
    |a: Card, b: Card| a.rank_key() <= b.rank_key()
}

/// The key that one of the two sorts goes by.
pub open spec fn sort_key(card: Card, by_suit: bool) -> int {
    if by_suit {
        card.suit_key()
    } else {
        card.rank_key()
    }
}

/// Ascending by the chosen key.
pub open spec fn keys_ascend(cards: Seq<Card>, by_suit: bool) -> bool {
    forall|i: int, j: int|
        0 <= i < j < cards.len() ==> sort_key(#[trigger] cards[i], by_suit) <= sort_key(
            #[trigger] cards[j],
            by_suit,
        )
}

/// The sum of what the cards count towards a point.
pub open spec fn hand_points(cards: Seq<Card>) -> nat
    decreases cards.len(),
{
    if cards.len() == 0 {
        0
    } else {
        hand_points(cards.drop_last()) + cards.last().points()
    }
}

/// The place, in the order by rank and then suit, of the highest of the
/// cards; -1 where there is no card.
pub open spec fn highest_key(cards: Seq<Card>) -> int
    decreases cards.len(),
{
    if cards.len() == 0 {
        -1
    } else {
        let rest = highest_key(cards.drop_last());
        let last = cards.last().rank_key();
        if last > rest {
            last
        } else {
            rest
        }
    }
}

/// `card` is one of `cards`, and none of them is higher.
pub open spec fn is_highest(card: Card, cards: Seq<Card>) -> bool {
    &&& cards.contains(card)
    &&& forall|i: int| 0 <= i < cards.len() ==> (#[trigger] cards[i]).rank_key() <= card.rank_key()
}

/// The card at a place of the order by rank and then suit.
pub open spec fn card_at(key: int) -> Card {
    Card { rank: Rank::of(key / 4), suit: Suit::of(key % 4) }
}

/// The 32 cards in the order in which a new deck holds them: rank by rank
/// from the sevens to the aces, and within a rank suit by suit.
pub open spec fn full_deck() -> Seq<Card> {
    Seq::new(32, |i: int| card_at(i))
}

/// A card is known by its place in either order.
pub proof fn lemma_card_by_key(a: Card, b: Card)
    ensures
        a.rank_key() == b.rank_key() ==> a == b,
        a.suit_key() == b.suit_key() ==> a == b,
        0 <= a.rank_key() < 32,
        0 <= a.suit_key() < 32,
        card_at(a.rank_key()) == a,
{
    assert(0 <= a.rank.ord() < 8 && 0 <= b.rank.ord() < 8);
    assert(0 <= a.suit.ord() < 4 && 0 <= b.suit.ord() < 4);
    if a.rank_key() == b.rank_key() {
        assert(a.rank.ord() == b.rank.ord());
        assert(a.suit.ord() == b.suit.ord());
    }
    if a.suit_key() == b.suit_key() {
        assert(a.suit.ord() == b.suit.ord());
        assert(a.rank.ord() == b.rank.ord());
    }
}

/// Both ways of ordering cards are total orders: of two different cards
/// one is always strictly above the other.
pub proof fn lemma_orders_total()
    ensures
        total_ordering(suit_order()),
        total_ordering(rank_order()),
{
    assert forall|x: Card, y: Card|
        #[trigger] suit_order()(x, y) && #[trigger] suit_order()(y, x) implies x == y by {
        lemma_card_by_key(x, y);
    }
    assert forall|x: Card, y: Card|
        #[trigger] rank_order()(x, y) && #[trigger] rank_order()(y, x) implies x == y by {
        lemma_card_by_key(x, y);
    }
}

/// A sequence of cards in ascending order is what sorting it gives: sorting
/// what is sorted already changes nothing.
pub proof fn lemma_sort_idempotent(cards: Seq<Card>, by_suit: bool)
    requires
        keys_ascend(cards, by_suit),
    ensures
        by_suit ==> cards.sort_by(suit_order()) == cards,
        !by_suit ==> cards.sort_by(rank_order()) == cards,
{
    lemma_orders_total();
    if by_suit {
        cards.lemma_sort_by_ensures(suit_order());
        lemma_sorted_unique(cards.sort_by(suit_order()), cards, suit_order());
    } else {
        cards.lemma_sort_by_ensures(rank_order());
        lemma_sorted_unique(cards.sort_by(rank_order()), cards, rank_order());
    }
}

/// Sorting what has been sorted changes nothing: sorting twice is sorting once.
pub proof fn lemma_sort_twice(cards: Seq<Card>)
    ensures
        cards.sort_by(suit_order()).sort_by(suit_order()) == cards.sort_by(suit_order()),
        cards.sort_by(rank_order()).sort_by(rank_order()) == cards.sort_by(rank_order()),
{
    lemma_orders_total();
    let by_suit = cards.sort_by(suit_order());
    cards.lemma_sort_by_ensures(suit_order());
    by_suit.lemma_sort_by_ensures(suit_order());
    lemma_sorted_unique(by_suit.sort_by(suit_order()), by_suit, suit_order());
    let by_rank = cards.sort_by(rank_order());
    cards.lemma_sort_by_ensures(rank_order());
    by_rank.lemma_sort_by_ensures(rank_order());
    lemma_sorted_unique(by_rank.sort_by(rank_order()), by_rank, rank_order());
}

/// The points of a hand are bounded by its length: no card counts more than eleven.
pub proof fn lemma_hand_points_bound(cards: Seq<Card>)
    ensures
        hand_points(cards) <= 11 * cards.len(),
    decreases cards.len(),
{
    if cards.len() > 0 {
        lemma_hand_points_bound(cards.drop_last());
    }
}

/// The highest card's place is `highest_key`.
pub proof fn lemma_highest_key(card: Card, cards: Seq<Card>)
    requires
        is_highest(card, cards),
    ensures
        highest_key(cards) == card.rank_key(),
    decreases cards.len(),
{
    let i = choose|i: int| 0 <= i < cards.len() && cards[i] == card;
    let front = cards.drop_last();
    if i == cards.len() - 1 {
        lemma_highest_key_bound(front, card.rank_key());
    } else {
        assert(front[i] == card);
        assert(is_highest(card, front));
        lemma_highest_key(card, front);
    }
}

/// `highest_key` is no more than a bound on every card's place.
proof fn lemma_highest_key_bound(cards: Seq<Card>, bound: int)
    requires
        bound >= -1,
        forall|i: int| 0 <= i < cards.len() ==> (#[trigger] cards[i]).rank_key() <= bound,
    ensures
        highest_key(cards) <= bound,
    decreases cards.len(),
{
    if cards.len() > 0 {
        let front = cards.drop_last();
        assert forall|i: int| 0 <= i < front.len() implies (#[trigger] front[i]).rank_key()
            <= bound by {
            assert(front[i] == cards[i]);
        }
        lemma_highest_key_bound(front, bound);
    }
}

/// The new deck holds 32 cards, and no card twice.
pub proof fn lemma_full_deck()
    ensures
        full_deck().len() == 32,
        full_deck().no_duplicates(),
{
    assert forall|i: int, j: int|
        0 <= i < full_deck().len() && 0 <= j < full_deck().len() && i != j implies full_deck()[i]
        != full_deck()[j] by {
        if i / 4 == j / 4 {
            assert(i % 4 != j % 4);
            assert(Suit::of(i % 4).ord() == i % 4);
            assert(Suit::of(j % 4).ord() == j % 4);
        } else {
            assert(Rank::of(i / 4).ord() == i / 4);
            assert(Rank::of(j / 4).ord() == j / 4);
        }
    }
}

/// Whatever order the 32 cards of the deck are put in, they are 32 cards
/// and none of them twice.
pub proof fn lemma_permuted_deck(cards: Seq<Card>)
    requires
        cards.to_multiset() == full_deck().to_multiset(),
    ensures
        cards.len() == 32,
        cards.no_duplicates(),
{
    broadcast use group_to_multiset_ensures;

    lemma_full_deck();
    assert(cards.len() == cards.to_multiset().len());
    assert(full_deck().len() == full_deck().to_multiset().len());
    full_deck().lemma_multiset_has_no_duplicates();
    cards.lemma_multiset_has_no_duplicates_conv();
}

/// The cards as written one after the other, a space between two.
pub open spec fn row_sign(cards: Seq<Card>) -> Seq<char>
    decreases cards.len(),
{
    if cards.len() == 0 {
        Seq::empty()
    } else if cards.len() == 1 {
        cards[0].sign()
    } else {
        row_sign(cards.drop_last()) + " "@ + cards.last().sign()
    }
}

/// A hand as written: its cards with a space between two, and a space at the end.
pub open spec fn hand_sign(cards: Seq<Card>) -> Seq<char> {
    row_sign(cards) + " "@
}

/// The cards without the first of them that is `card`; all of them where
/// none is.
pub open spec fn without(cards: Seq<Card>, card: Card) -> Seq<Card>
    decreases cards.len(),
{
    if cards.len() == 0 {
        cards
    } else if cards[0] == card {
        cards.drop_first()
    } else {
        seq![cards[0]] + without(cards.drop_first(), card)
    }
}

/// Taking out the first card like `card` takes out the card at the first
/// place where one is, and nothing where none is.
pub proof fn lemma_without(cards: Seq<Card>, card: Card, i: int)
    requires
        0 <= i <= cards.len(),
        forall|k: int| 0 <= k < i ==> cards[k] != card,
        i < cards.len() ==> cards[i] == card,
    ensures
        i < cards.len() ==> without(cards, card) == cards.remove(i),
        i == cards.len() ==> without(cards, card) == cards,
        without(cards, card).len() <= cards.len(),
    decreases cards.len(),
{
    if cards.len() == 0 {
    } else if i == 0 {
        assert(cards.drop_first() =~= cards.remove(0));
    } else {
        let rest = cards.drop_first();
        assert forall|k: int| 0 <= k < i - 1 implies rest[k] != card by {
            assert(rest[k] == cards[k + 1]);
        }
        lemma_without(rest, card, i - 1);
        if i < cards.len() {
            assert(seq![cards[0]] + rest.remove(i - 1) =~= cards.remove(i));
        } else {
            assert(seq![cards[0]] + rest =~= cards);
        }
    }
}

/// Cards that are all among the cards of a hand, each as often at most as
/// the hand holds it, are no more than the hand has.
pub proof fn lemma_part_is_shorter(part: Seq<Card>, whole: Seq<Card>)
    requires
        part.to_multiset().subset_of(whole.to_multiset()),
    ensures
        part.len() <= whole.len(),
{
    broadcast use group_to_multiset_ensures;
    broadcast use vstd::multiset::group_multiset_axioms;

    assert(part.len() == part.to_multiset().len());
    assert(whole.len() == whole.to_multiset().len());
    assert(whole.to_multiset().sub(part.to_multiset()).len() == whole.to_multiset().len()
        - part.to_multiset().len());
}

fn rank_at(i: usize) -> (rank: Rank)
    requires
        i < 8,
    ensures
        rank == Rank::of(i as int),
{
    if i == 0 {
        Rank::Seven
    } else if i == 1 {
        Rank::Eight
    } else if i == 2 {
        Rank::Nine
    } else if i == 3 {
        Rank::Ten
    } else if i == 4 {
        Rank::Jack
    } else if i == 5 {
        Rank::Queen
    } else if i == 6 {
        Rank::King
    } else {
        Rank::Ace
    }
}

fn suit_at(i: usize) -> (suit: Suit)
    requires
        i < 4,
    ensures
        suit == Suit::of(i as int),
{
    if i == 0 {
        Suit::Heart
    } else if i == 1 {
        Suit::Diamond
    } else if i == 2 {
        Suit::Spade
    } else {
        Suit::Club
    }
}

fn card_of(key: u8) -> (card: Card)
    requires
        key < 32,
    ensures
        card == card_at(key as int),
{
    Card::new(rank_at((key / 4) as usize), suit_at((key % 4) as usize))
}

/// How often a card is among the cards.
fn count_card(cards: &Vec<Card>, card: &Card) -> (n: usize)
    ensures
        n == cards@.to_multiset().count(*card),
{
    let mut n: usize = 0;
    let mut i: usize = 0;
    proof {
        broadcast use vstd::multiset::group_multiset_axioms;
        broadcast use group_to_multiset_ensures;

        assert(cards@.take(0) =~= Seq::<Card>::empty());
        assert(Seq::<Card>::empty().to_multiset().len() == 0);
    }
    while i < cards.len()
        invariant
            i <= cards.len(),
            n <= i,
            n == cards@.take(i as int).to_multiset().count(*card),
        decreases cards.len() - i,
    {
        proof {
            let before = cards@.take(i as int);
            let this = cards@[i as int];
            assert(cards@.take(i + 1) =~= before.push(this));
            broadcast use vstd::multiset::group_multiset_axioms;

            to_multiset_build(before, this);
            assert(Multiset::singleton(this).count(*card) == if this == *card {
                1nat
            } else {
                0nat
            });
            assert(before.to_multiset().insert(this).count(*card) == before.to_multiset().count(
                *card,
            ) + Multiset::singleton(this).count(*card));
        }
        if cards[i] == *card {
            n += 1;
        }
        i += 1;
    }
    assert(cards@.take(cards.len() as int) == cards@);
    n
}

fn place(card: &Card, by_suit: bool) -> (k: u8)
    ensures
        k == sort_key(*card, by_suit),
{
    if by_suit {
        card.suit_place()
    } else {
        card.rank_place()
    }
}

fn copy_cards(cards: &Vec<Card>) -> (copy: Vec<Card>)
    ensures
        copy@ == cards@,
{
    let mut copy: Vec<Card> = Vec::new();
    let mut i: usize = 0;
    while i < cards.len()
        invariant
            i <= cards.len(),
            copy@ == cards@.take(i as int),
        decreases cards.len() - i,
    {
        copy.push(cards[i]);
        i += 1;
        assert(copy@ == cards@.take(i as int));
    }
    assert(cards@.take(cards.len() as int) == cards@);
    copy
}

fn same_cards(a: &Vec<Card>, b: &Vec<Card>) -> (same: bool)
    ensures
        same == (a@ == b@),
{
    if a.len() != b.len() {
        return false;
    }
    let mut i: usize = 0;
    while i < a.len()
        invariant
            i <= a.len(),
            a.len() == b.len(),
            forall|k: int| 0 <= k < i ==> a@[k] == b@[k],
        decreases a.len() - i,
    {
        if a[i] != b[i] {
            return false;
        }
        i += 1;
    }
    assert(a@ =~= b@);
    true
}

fn swap_cards(cards: &mut Vec<Card>, i: usize, j: usize)
    requires
        i < old(cards).len(),
        j < old(cards).len(),
    ensures
        final(cards)@ == old(cards)@.update(i as int, old(cards)@[j as int]).update(
            j as int,
            old(cards)@[i as int],
        ),
        final(cards)@.to_multiset() == old(cards)@.to_multiset(),
{
    broadcast use group_to_multiset_ensures;

    let a = cards[i];
    let b = cards[j];
    cards.set(i, b);
    cards.set(j, a);
    proof {
        let s0 = old(cards)@;
        let s1 = s0.update(i as int, b);
        assert(s1.to_multiset() == s0.to_multiset().insert(b).remove(a));
        assert(cards@.to_multiset() == s1.to_multiset().insert(a).remove(s1[j as int]));
        assert(cards@.to_multiset() =~= s0.to_multiset());
    }
}

/// Sorts by insertion: each card in turn sinks to its place among those before it.
#[verifier::rlimit(40)]
fn sort_cards(cards: &mut Vec<Card>, by_suit: bool)
    ensures
        final(cards)@.to_multiset() == old(cards)@.to_multiset(),
        keys_ascend(final(cards)@, by_suit),
{
    let n = cards.len();
    let mut i: usize = 0;
    while i < n
        invariant
            cards.len() == n,
            i <= n,
            cards@.to_multiset() == old(cards)@.to_multiset(),
            keys_ascend(cards@.take(i as int), by_suit),
        decreases n - i,
    {
        let mut j: usize = i;
        assert forall|a: int, b: int| 0 <= a < b < i implies sort_key(
            #[trigger] cards@[a],
            by_suit,
        ) <= sort_key(#[trigger] cards@[b], by_suit) by {
            let t = cards@.take(i as int);
            assert(t[a] == cards@[a] && t[b] == cards@[b]);
        }
        while j > 0 && place(&cards[j - 1], by_suit) > place(&cards[j], by_suit)
            invariant
                cards.len() == n,
                j <= i < n,
                cards@.to_multiset() == old(cards)@.to_multiset(),
                forall|a: int, b: int|
                    0 <= a < b <= i && a != j && b != j ==> sort_key(
                        #[trigger] cards@[a],
                        by_suit,
                    ) <= sort_key(#[trigger] cards@[b], by_suit),
                forall|b: int|
                    j < b <= i ==> sort_key(cards@[j as int], by_suit) <= sort_key(
                        #[trigger] cards@[b],
                        by_suit,
                    ),
            decreases j,
        {
            swap_cards(cards, j - 1, j);
            j -= 1;
        }
        i += 1;
        assert(keys_ascend(cards@.take(i as int), by_suit)) by {
            let t = cards@.take(i as int);
            assert forall|a: int, b: int| 0 <= a < b < t.len() implies sort_key(
                #[trigger] t[a],
                by_suit,
            ) <= sort_key(#[trigger] t[b], by_suit) by {
                assert(t[a] == cards@[a] && t[b] == cards@[b]);
                if b == j && a < j - 1 {
                    assert(sort_key(cards@[a], by_suit) <= sort_key(cards@[j - 1], by_suit));
                }
            }
        }
    }
    assert(cards@.take(n as int) == cards@);
}

/// What sorting does, said in one line: the cards after it are the cards
/// before it, put in the one ascending order there is.
proof fn lemma_sorted_is_sort(before: Seq<Card>, after: Seq<Card>, by_suit: bool)
    requires
        after.to_multiset() == before.to_multiset(),
        keys_ascend(after, by_suit),
    ensures
        by_suit ==> after == before.sort_by(suit_order()) && sorted_by(after, suit_order()),
        !by_suit ==> after == before.sort_by(rank_order()) && sorted_by(after, rank_order()),
{
    lemma_orders_total();
    if by_suit {
        before.lemma_sort_by_ensures(suit_order());
        lemma_sorted_unique(after, before.sort_by(suit_order()), suit_order());
    } else {
        before.lemma_sort_by_ensures(rank_order());
        lemma_sorted_unique(after, before.sort_by(rank_order()), rank_order());
    }
}

// ----------- Deck -----------
/// A pile of cards in a fixed order: the pack of 32 when new, or the
/// empty pile on which cards are laid.
#[derive(Debug)]
pub struct Deck(Vec<Card>);

impl View for Deck {
    type V = Seq<Card>;

    closed spec fn view(&self) -> Seq<Card> {
        self.0@
    }
}

impl Clone for Deck {
    fn clone(&self) -> (copy: Self)
        ensures
            copy@ == self@,
    {
        Deck(copy_cards(&self.0))
    }
}

impl PartialEq for Deck {
    fn eq(&self, other: &Deck) -> (same: bool) {
        same_cards(&self.0, &other.0)
    }
}

impl PartialEqSpecImpl for Deck {
    open spec fn obeys_eq_spec() -> bool {
        true
    }

    open spec fn eq_spec(&self, other: &Deck) -> bool {
        self@ == other@
    }
}

impl Eq for Deck {

}

impl Deck {
    /// The pile with no card in it.
    pub fn empty_deck() -> (deck: Self)
        ensures
            deck@ == Seq::<Card>::empty(),
    {
        Deck(Vec::new())
    }

    /// A pile of the cards given, in their order.
    pub fn from_cards(cards: Vec<Card>) -> (deck: Self)
        ensures
            deck@ == cards@,
    {
        Deck(cards)
    }

    /// The full pack: every rank in every suit, once.
    pub fn new() -> (deck: Self)
        ensures
            deck@ == full_deck(),
            deck@.len() == 32,
            deck@.no_duplicates(),
    {
        let mut cards: Vec<Card> = Vec::new();
        let mut r: usize = 0;
        while r < 8
            invariant
                r <= 8,
                cards@.len() == 4 * r,
                forall|k: int| 0 <= k < cards@.len() ==> cards@[k] == full_deck()[k],
            decreases 8 - r,
        {
            let mut s: usize = 0;
            while s < 4
                invariant
                    r < 8,
                    s <= 4,
                    cards@.len() == 4 * r + s,
                    forall|k: int| 0 <= k < cards@.len() ==> cards@[k] == full_deck()[k],
                decreases 4 - s,
            {
                cards.push(Card::new(rank_at(r), suit_at(s)));
                s += 1;
            }
            r += 1;
        }
        proof {
            assert(cards@ =~= full_deck());
            lemma_full_deck();
        }
        Deck(cards)
    }

    pub fn get_cards(&self) -> (cards: &Vec<Card>)
        ensures
            cards@ == self@,
    {
        &self.0
    }

    /// Takes the first `n` cards off the pile.
    pub fn draw(&mut self, n: usize) -> (drawn: Vec<Card>)
        requires
            n <= old(self)@.len(),
        ensures
            drawn@ == old(self)@.take(n as int),
            final(self)@ == old(self)@.skip(n as int),
    {
        let mut rest = self.0.split_off(n);
        std::mem::swap(&mut self.0, &mut rest);
        assert(rest@ =~= old(self)@.take(n as int));
        assert(self.0@ =~= old(self)@.skip(n as int));
        rest
    }

    /// Puts the cards in an order drawn from `rng`, which may be the order they are in.
    /// Whatever is drawn, the pile holds the same cards afterwards, each as often as before.
    pub fn shuffle(&mut self, rng: &mut XorShiftRng)
        ensures
            final(self)@.to_multiset() == old(self)@.to_multiset(),
            final(self)@.len() == old(self)@.len(),
    {
        shuffle_cards(rng, &mut self.0);
    }
}

// ----------- Hand -----------
/// The cards that a player holds, in the order in which they were put.
#[derive(Debug)]
pub struct Hand(Vec<Card>);

impl View for Hand {
    type V = Seq<Card>;

    closed spec fn view(&self) -> Seq<Card> {
        self.0@
    }
}

impl Clone for Hand {
    fn clone(&self) -> (copy: Self)
        ensures
            copy@ == self@,
    {
        Hand(copy_cards(&self.0))
    }
}

impl PartialEq for Hand {
    fn eq(&self, other: &Hand) -> (same: bool) {
        same_cards(&self.0, &other.0)
    }
}

impl PartialEqSpecImpl for Hand {
    open spec fn obeys_eq_spec() -> bool {
        true
    }

    open spec fn eq_spec(&self, other: &Hand) -> bool {
        self@ == other@
    }
}

impl Eq for Hand {

}

impl Hand {
    pub fn empty_hand() -> (hand: Self)
        ensures
            hand@ == Seq::<Card>::empty(),
    {
        Hand(Vec::new())
    }

    pub fn new(cards: Vec<Card>) -> (hand: Self)
        ensures
            hand@ == cards@,
    {
        Hand(cards)
    }

    pub fn cards(self) -> (cards: Vec<Card>)
        ensures
            cards@ == self@,
    {
        self.0
    }

    /// Walks the cards in the order of the hand.
    pub fn iter(&self) -> (it: std::slice::Iter<'_, Card>)
        ensures
            it.remaining() == self@.as_ref(),
    {
        self.0.iter()
    }

    pub fn len(&self) -> (n: usize)
        ensures
            n == self@.len(),
    {
        self.0.len()
    }

    /// The highest card of the hand, by rank and then by suit; none in an empty hand.
    pub fn max(&self) -> (top: Option<&Card>)
        ensures
            match top {
                Some(card) => {
                    &&& self@.len() > 0
                    &&& is_highest(*card, self@)
                    &&& card.rank_key() == highest_key(self@)
                    &&& *card == card_at(highest_key(self@))
                },
                None => self@.len() == 0 && highest_key(self@) == -1,
            },
    {
        if self.0.len() == 0 {
            return None;
        }
        let mut best: usize = 0;
        let mut i: usize = 1;
        while i < self.0.len()
            invariant
                best < i <= self.0.len(),
                forall|k: int|
                    0 <= k < i ==> (#[trigger] self.0@[k]).rank_key() <= self.0@[best as int].rank_key(),
            decreases self.0.len() - i,
        {
            if self.0[i].rank_place() >= self.0[best].rank_place() {
                best = i;
            }
            i += 1;
        }
        proof {
            assert(self@[best as int] == self.0@[best as int]);
            lemma_highest_key(self.0@[best as int], self@);
            lemma_card_by_key(self.0@[best as int], self.0@[best as int]);
        }
        Some(&self.0[best])
    }

    /// The hand as text.
    pub fn to_text(&self) -> (s: String)
        ensures
            s@ == hand_sign(self@),
    {
        let mut text = String::new();
        let mut i: usize = 0;
        assert(self.0@.take(0) =~= Seq::<Card>::empty());
        while i < self.0.len()
            invariant
                i <= self.0.len(),
                text@ == row_sign(self.0@.take(i as int)),
            decreases self.0.len() - i,
        {
            proof {
                let upto = self.0@.take(i + 1);
                assert(upto.drop_last() =~= self.0@.take(i as int));
                assert(upto.last() == self.0@[i as int]);
                if i == 0 {
                    assert(Seq::<char>::empty() + upto[0].sign() =~= upto[0].sign());
                }
            }
            if i != 0 {
                text = text.concat(" ");
            }
            text = text.concat(self.0[i].to_text().as_str());
            i += 1;
        }
        assert(self.0@.take(self.0.len() as int) == self.0@);
        text.concat(" ")
    }

    /// Whether the card is in the hand.
    pub fn contains(&self, card: &Card) -> (held: bool)
        ensures
            held == self@.contains(*card),
    {
        let mut i: usize = 0;
        while i < self.0.len()
            invariant
                i <= self.0.len(),
                forall|k: int| 0 <= k < i ==> self.0@[k] != *card,
            decreases self.0.len() - i,
        {
            if self.0[i] == *card {
                return true;
            }
            i += 1;
        }
        false
    }

    /// Takes the card out of the hand, once, where the hand holds it. The
    /// other cards keep their order.
    pub fn take_card(&mut self, card: &Card) -> (held: bool)
        ensures
            held == old(self)@.contains(*card),
            final(self)@ == without(old(self)@, *card),
            final(self)@.len() <= old(self)@.len(),
    {
        let mut i: usize = 0;
        while i < self.0.len()
            invariant
                i <= self.0.len(),
                self.0@ == old(self).0@,
                forall|k: int| 0 <= k < i ==> self.0@[k] != *card,
            decreases self.0.len() - i,
        {
            if self.0[i] == *card {
                proof {
                    lemma_without(self.0@, *card, i as int);
                }
                self.0.remove(i);
                return true;
            }
            i += 1;
        }
        proof {
            lemma_without(self.0@, *card, i as int);
        }
        false
    }

    /// Whether the cards of `part` are all in the hand, a card that is
    /// twice in `part` twice in the hand.
    pub fn holds_all(&self, part: &Hand) -> (all: bool)
        ensures
            all == part@.to_multiset().subset_of(self@.to_multiset()),
            all ==> part@.len() <= self@.len(),
    {
        let mut key: u8 = 0;
        while key < 32
            invariant
                key <= 32,
                forall|k: int|
                    0 <= k < key ==> part.0@.to_multiset().count(#[trigger] card_at(k))
                        <= self.0@.to_multiset().count(card_at(k)),
            decreases 32 - key,
        {
            let card = card_of(key);
            if count_card(&part.0, &card) > count_card(&self.0, &card) {
                return false;
            }
            key += 1;
        }
        proof {
            assert forall|card: Card|
                part@.to_multiset().count(card) <= self@.to_multiset().count(card) by {
                lemma_card_by_key(card, card);
                assert(card == card_at(card.rank_key()));
            }
            lemma_part_is_shorter(part@, self@);
        }
        true
    }

    /// The points of the hand, whatever its length.
    pub fn point_total(&self) -> (total: u128)
        ensures
            total == hand_points(self@),
    {
        let mut total: u128 = 0;
        let mut i: usize = 0;
        while i < self.0.len()
            invariant
                i <= self.0.len(),
                total == hand_points(self.0@.take(i as int)),
                total <= 11 * i,
            decreases self.0.len() - i,
        {
            assert(self.0@.take(i + 1).drop_last() == self.0@.take(i as int));
            total = total + self.0[i].point_value() as u128;
            i += 1;
        }
        assert(self.0@.take(self.0.len() as int) == self.0@);
        total
    }

    /// The sum of what the cards of the hand count towards a point.
    // used for declaration
    pub fn point_value(&self) -> (total: u32)
        requires
            hand_points(self@) <= u32::MAX,
        ensures
            total == hand_points(self@),
    {
        self.point_total() as u32
    }

    /// Sorts the hand by suit, and within a suit by rank.
    pub fn sort_by_suit(&mut self)
        ensures
            final(self)@ == old(self)@.sort_by(suit_order()),
            final(self)@.to_multiset() == old(self)@.to_multiset(),
            sorted_by(final(self)@, suit_order()),
            keys_ascend(final(self)@, true),
            keys_ascend(old(self)@, true) ==> final(self)@ == old(self)@,
    {
        sort_cards(&mut self.0, true);
        proof {
            lemma_sorted_is_sort(old(self)@, self@, true);
            if keys_ascend(old(self)@, true) {
                lemma_sort_idempotent(old(self)@, true);
            }
        }
    }

    /// Sorts the hand by rank, and within a rank by suit.
    pub fn sort_by_rank(&mut self)
        ensures
            final(self)@ == old(self)@.sort_by(rank_order()),
            final(self)@.to_multiset() == old(self)@.to_multiset(),
            sorted_by(final(self)@, rank_order()),
            keys_ascend(final(self)@, false),
            keys_ascend(old(self)@, false) ==> final(self)@ == old(self)@,
    {
        sort_cards(&mut self.0, false);
        proof {
            lemma_sorted_is_sort(old(self)@, self@, false);
            if keys_ascend(old(self)@, false) {
                lemma_sort_idempotent(old(self)@, false);
            }
        }
    }
}

} // verus!
