//! The scoring combinations of a hand: how they are found, named, counted
//! and weighed against each other.

use crate::cards::{
    card_at, hand_points, hand_sign, highest_key, lemma_hand_points_bound, lemma_orders_total,
    rank_order, suit_order, Card, Hand, Rank,
};
use crate::game::PiquetError;
use std::cmp::Ordering;
use vstd::prelude::*;
use vstd::seq_lib::group_to_multiset_ensures;
use vstd::std_specs::cmp::{PartialEqSpecImpl, PartialOrdSpecImpl};

verus! {

/// The three families of combinations.
#[derive(Debug, Clone, Copy, PartialEq, Eq, Hash, Structural)]
pub enum CombinationType {
    Point,
    Sequence,
    RankSet,
}

impl CombinationType {
    /// The name of the family.
    pub open spec fn sign(self) -> Seq<char> {
        match self {
            CombinationType::Point => "Point"@,
            CombinationType::Sequence => "Sequence"@,
            CombinationType::RankSet => "Set"@,
        }
    }

    /// The family as text.
    pub fn to_text(&self) -> (s: String)
        ensures
            s@ == self.sign(),
    {
        match self {
            CombinationType::Point => String::from_str("Point"),
            CombinationType::Sequence => String::from_str("Sequence"),
            CombinationType::RankSet => String::from_str("Set"),
        }
    }
}

/// Cards of a hand that score together as a point, a sequence or a set.
#[derive(Debug)]
pub struct Combination {
    combination_type: CombinationType,
    cards: Hand,
}

/// What a combination is to the contracts: its family and its cards in order.
#[verifier::ext_equal]
pub struct CombinationView {
    pub family: CombinationType,
    pub cards: Seq<Card>,
}

impl View for Combination {
    type V = CombinationView;

    closed spec fn view(&self) -> CombinationView {
        CombinationView { family: self.combination_type, cards: self.cards@ }
    }
}

/// The views of a row of combinations, in the same order.
pub open spec fn views(row: Seq<Combination>) -> Seq<CombinationView> {
    Seq::new(row.len(), |i: int| row[i]@)
}

// ----------- weighing two combinations -----------
/// The number of cards.
pub open spec fn size(v: CombinationView) -> int {
    v.cards.len() as int
}

/// What decides between two combinations of one family and one size: the
/// points of the cards for a point, the highest card for a sequence or a set.
pub open spec fn tie_break(v: CombinationView) -> int {
    match v.family {
        CombinationType::Point => hand_points(v.cards) as int,
        _ => highest_key(v.cards),
    }
}

/// -1, 0 or 1 as `x` is below, equal to or above `y`.
pub open spec fn sign_of(x: int, y: int) -> int {
    if x < y {
        -1
    } else if x == y {
        0
    } else {
        1
    }
}

/// How `a` stands to `b`: -1 below, 0 level, 1 above. More cards win; with
/// as many cards the tie-break decides. Combinations of different families
/// are not weighed against each other and stand level.
pub open spec fn standing(a: CombinationView, b: CombinationView) -> int {
    if a.family != b.family {
        0
    } else if size(a) != size(b) {
        sign_of(size(a), size(b))
    } else {
        sign_of(tie_break(a), tie_break(b))
    }
}

/// The standing as std's three-way result.
pub open spec fn verdict(standing: int) -> Ordering {
    if standing < 0 {
        Ordering::Less
    } else if standing == 0 {
        Ordering::Equal
    } else {
        Ordering::Greater
    }
}

/// `==` on combinations: of one family, the same cards in the same order.
/// Two combinations of different families count as equal, as they stand level.
pub open spec fn alike(a: CombinationView, b: CombinationView) -> bool {
    a.family != b.family || a.cards == b.cards
}

// ----------- scoring and naming -----------
/// The points a combination scores: a point its number of cards, a set 14
/// with four cards and 3 otherwise, a sequence its number of cards and 10
/// more from five cards on.
pub open spec fn score(v: CombinationView) -> nat {
    match v.family {
        CombinationType::Point => v.cards.len(),
        CombinationType::RankSet => if v.cards.len() == 4 {
            14
        } else {
            3
        },
        CombinationType::Sequence => if v.cards.len() > 4 {
            v.cards.len() + 10
        } else {
            v.cards.len()
        },
    }
}

/// One decimal digit.
pub open spec fn digit(d: nat) -> Seq<char> {
    if d == 0 {
        "0"@
    } else if d == 1 {
        "1"@
    } else if d == 2 {
        "2"@
    } else if d == 3 {
        "3"@
    } else if d == 4 {
        "4"@
    } else if d == 5 {
        "5"@
    } else if d == 6 {
        "6"@
    } else if d == 7 {
        "7"@
    } else if d == 8 {
        "8"@
    } else {
        "9"@
    }
}

/// A number written in decimal, without leading zeros.
pub open spec fn decimal(n: nat) -> Seq<char>
    decreases n,
{
    if n < 10 {
        digit(n)
    } else {
        decimal(n / 10) + digit(n % 10)
    }
}

/// The name under which a combination is declared; none where the family
/// has no name for that many cards.
pub open spec fn declaration_name(v: CombinationView) -> Option<Seq<char>> {
    let n = v.cards.len();
    match v.family {
        CombinationType::Point => Some("Point of "@ + decimal(n)),
        CombinationType::RankSet => if n == 3 {
            Some("Trio"@)
        } else if n == 4 {
            Some("Quatorze"@)
        } else {
            None
        },
        CombinationType::Sequence => if n == 3 {
            Some("Tierce"@)
        } else if n == 4 {
            Some("Quart"@)
        } else if n == 5 {
            Some("Cinquième"@)
        } else if n == 6 {
            Some("Sixième"@)
        } else if n == 7 {
            Some("Septième"@)
        } else if n == 8 {
            Some("Huitième"@)
        } else {
            None
        },
    }
}

/// The full declaration: the name, and what breaks a tie. A point tells
/// its total, a sequence the card it runs up to, a set the card it is of.
pub open spec fn declaration_text(v: CombinationView) -> Option<Seq<char>> {
    match declaration_name(v) {
        None => None,
        Some(name) => Some(
            match v.family {
                CombinationType::Point => name + " totaling "@ + decimal(hand_points(v.cards)),
                CombinationType::Sequence => name + " to "@ + card_at(highest_key(v.cards)).sign(),
                CombinationType::RankSet => name + " of "@ + card_at(highest_key(v.cards)).sign(),
            },
        ),
    }
}

fn digit_text(d: u8) -> (s: &'static str)
    requires
        d < 10,
    ensures
        s@ == digit(d as nat),
{
    if d == 0 {
        "0"
    } else if d == 1 {
        "1"
    } else if d == 2 {
        "2"
    } else if d == 3 {
        "3"
    } else if d == 4 {
        "4"
    } else if d == 5 {
        "5"
    } else if d == 6 {
        "6"
    } else if d == 7 {
        "7"
    } else if d == 8 {
        "8"
    } else {
        "9"
    }
}

pub(crate) fn decimal_text(n: u128) -> (s: String)
    ensures
        s@ == decimal(n as nat),
    decreases n,
{
    if n < 10 {
        String::from_str(digit_text(n as u8))
    } else {
        decimal_text(n / 10).concat(digit_text((n % 10) as u8))
    }
}

fn three_way(x: i128, y: i128) -> (s: i8)
    ensures
        s == sign_of(x as int, y as int),
{
    if x < y {
        -1
    } else if x == y {
        0
    } else {
        1
    }
}

impl Clone for Combination {
    fn clone(&self) -> (copy: Self)
        ensures
            copy@ == self@,
    {
        Combination { combination_type: self.combination_type, cards: self.cards.clone() }
    }
}

impl PartialEq for Combination {
    fn eq(&self, other: &Combination) -> (same: bool) {
        self.combination_type != other.combination_type || self.cards == other.cards
    }
}

impl PartialEqSpecImpl for Combination {
    open spec fn obeys_eq_spec() -> bool {
        true
    }

    open spec fn eq_spec(&self, other: &Combination) -> bool {
        alike(self@, other@)
    }
}

impl Eq for Combination {

}

impl PartialOrd for Combination {
    fn partial_cmp(&self, other: &Combination) -> (o: Option<Ordering>) {
        Some(self.cmp(other))
    }
}

impl PartialOrdSpecImpl for Combination {
    open spec fn obeys_partial_cmp_spec() -> bool {
        true
    }

    open spec fn partial_cmp_spec(&self, other: &Combination) -> Option<Ordering> {
        Some(verdict(standing(self@, other@)))
    }
}

impl Combination {
    pub fn new(combination_type: CombinationType, cards: Hand) -> (combination: Self)
        ensures
            combination@ == (CombinationView { family: combination_type, cards: cards@ }),
    {
        Combination { combination_type, cards }
    }

    /// A combination of the cards given, if they hold as one of the
    /// family; an invalid combination if they do not.
    pub fn checked(combination_type: CombinationType, cards: Hand) -> (made: Result<
        Self,
        PiquetError,
    >)
        ensures
            match made {
                Ok(combination) => {
                    &&& combination@ == (CombinationView {
                        family: combination_type,
                        cards: cards@,
                    })
                    &&& holds(combination@)
                },
                Err(e) => {
                    &&& e == PiquetError::InvalidCombination
                    &&& !holds(CombinationView { family: combination_type, cards: cards@ })
                },
            },
    {
        let combination = Combination::new(combination_type, cards);
        if combination.is_valid() {
            Ok(combination)
        } else {
            Err(PiquetError::InvalidCombination)
        }
    }

    /// Whether the cards hold as a combination of the family.
    pub fn is_valid(&self) -> (valid: bool)
        ensures
            valid == holds(self@),
    {
        let cards = self.cards.clone().cards();
        let n = cards.len();
        if n == 0 {
            return false;
        }
        let first = cards[0];
        match self.combination_type {
            CombinationType::Point => {},
            CombinationType::Sequence => {
                if n < 3 {
                    return false;
                }
                if n > 8 {
                    assert(cards@[8].rank.ord() <= 7);
                    return false;
                }
            },
            CombinationType::RankSet => {
                if n < 3 || first.rank.index() <= Rank::Nine.index() {
                    return false;
                }
            },
        }
        let mut i: usize = 0;
        while i < n
            invariant
                i <= n,
                n == cards@.len(),
                n <= 8 || self.combination_type != CombinationType::Sequence,
                first == cards@[0],
                cards@ == self@.cards,
                forall|k: int|
                    0 <= k < i ==> fits(self.combination_type, first, #[trigger] cards@[k], k),
            decreases n - i,
        {
            let card = cards[i];
            let fitting = match self.combination_type {
                CombinationType::Point => card.suit == first.suit,
                CombinationType::Sequence => card.suit == first.suit && card.rank.index() as usize
                    == first.rank.index() as usize + i,
                CombinationType::RankSet => card.rank == first.rank,
            };
            if !fitting {
                assert(!fits(self.combination_type, first, cards@[i as int], i as int));
                return false;
            }
            i += 1;
        }
        true
    }

    /// The family of the combination.
    pub fn family(&self) -> (family: CombinationType)
        ensures
            family == self@.family,
    {
        self.combination_type
    }

    /// The cards of the combination.
    pub fn hand(&self) -> (hand: &Hand)
        ensures
            hand@ == self@.cards,
    {
        &self.cards
    }

    /// The combination as text: its family, a colon, its cards.
    pub fn to_text(&self) -> (s: String)
        ensures
            s@ == self@.family.sign() + " : "@ + hand_sign(self@.cards),
    {
        self.combination_type.to_text().concat(" : ").concat(self.cards.to_text().as_str())
    }

    /// What breaks a tie between this combination and another of its family and size.
    fn tie_value(&self) -> (t: i128)
        ensures
            t == tie_break(self@),
    {
        match self.combination_type {
            CombinationType::Point => {
                let n = self.cards.len();
                proof {
                    lemma_hand_points_bound(self.cards@);
                    assert(hand_points(self.cards@) <= 11 * n);
                }
                self.cards.point_total() as i128
            },
            _ => match self.cards.max() {
                Some(card) => card.rank_place() as i128,
                None => -1,
            },
        }
    }

    /// How this combination stands to another: -1 below, 0 level, 1 above.
    pub fn stands(&self, other: &Combination) -> (s: i8)
        ensures
            s == standing(self@, other@),
    {
        if self.combination_type != other.combination_type {
            0
        } else if self.cards.len() != other.cards.len() {
            if self.cards.len() < other.cards.len() {
                -1
            } else {
                1
            }
        } else {
            three_way(self.tie_value(), other.tie_value())
        }
    }

    /// Weighs this combination against another.
    pub fn cmp(&self, other: &Combination) -> (o: Ordering)
        ensures
            o == verdict(standing(self@, other@)),
    {
        let s = self.stands(other);
        if s < 0 {
            Ordering::Less
        } else if s == 0 {
            Ordering::Equal
        } else {
            Ordering::Greater
        }
    }

    /// Weighs the two combinations by their number of cards alone.
    // This is used in the first part of the declaration
    pub fn compare_length(&self, other: Combination) -> (o: Ordering)
        ensures
            o == verdict(sign_of(size(self@), size(other@))),
    {
        let mine = self.cards.len();
        let theirs = other.cards.len();
        if mine < theirs {
            Ordering::Less
        } else if mine == theirs {
            Ordering::Equal
        } else {
            Ordering::Greater
        }
    }

    /// The name under which the combination is declared. A set or a
    /// sequence with a number of cards for which there is no name is refused.
    pub fn show_declaration(&self) -> (name: Result<String, PiquetError>)
        ensures
            match name {
                Ok(text) => declaration_name(self@) == Some(text@),
                Err(e) => declaration_name(self@) is None && e == PiquetError::InvalidCombination,
            },
    {
        let n = self.cards.len();
        match self.combination_type {
            CombinationType::Point => Ok(
                String::from_str("Point of ").concat(decimal_text(n as u128).as_str()),
            ),
            CombinationType::RankSet => if n == 3 {
                Ok(String::from_str("Trio"))
            } else if n == 4 {
                Ok(String::from_str("Quatorze"))
            } else {
                Err(PiquetError::InvalidCombination)
            },
            CombinationType::Sequence => if n == 3 {
                Ok(String::from_str("Tierce"))
            } else if n == 4 {
                Ok(String::from_str("Quart"))
            } else if n == 5 {
                Ok(String::from_str("Cinquième"))
            } else if n == 6 {
                Ok(String::from_str("Sixième"))
            } else if n == 7 {
                Ok(String::from_str("Septième"))
            } else if n == 8 {
                Ok(String::from_str("Huitième"))
            } else {
                Err(PiquetError::InvalidCombination)
            },
        }
    }

    /// The full declaration: the name, and the total of a point, or the
    /// highest card of a sequence or a set. Refused where the name is.
    pub fn show_declaration_complete(&self) -> (full: Result<String, PiquetError>)
        ensures
            match full {
                Ok(text) => declaration_text(self@) == Some(text@),
                Err(e) => declaration_text(self@) is None && e == PiquetError::InvalidCombination,
            },
    {
        let name = match self.show_declaration() {
            Ok(name) => name,
            Err(e) => {
                return Err(e);
            },
        };
        match self.combination_type {
            CombinationType::Point => Ok(
                name.concat(" totaling ").concat(decimal_text(self.cards.point_total()).as_str()),
            ),
            CombinationType::Sequence => match self.cards.max() {
                Some(card) => Ok(name.concat(" to ").concat(card.to_text().as_str())),
                None => Err(PiquetError::InvalidCombination),
            },
            CombinationType::RankSet => match self.cards.max() {
                Some(card) => Ok(name.concat(" of ").concat(card.to_text().as_str())),
                None => Err(PiquetError::InvalidCombination),
            },
        }
    }

    /// The points that the combination scores.
    pub fn points(&self) -> (points: usize)
        requires
            self@.family == CombinationType::Sequence ==> self@.cards.len() + 10 <= usize::MAX,
        ensures
            points == score(self@),
    {
        let size = self.cards.len();
        match self.combination_type {
            CombinationType::Point => size,
            CombinationType::RankSet => if size == 4 {
                14
            } else {
                3
            },
            CombinationType::Sequence => if size > 4 {
                size + 10
            } else {
                size
            },
        }
    }
}


// ----------- finding the combinations of a hand -----------
/// Whether `next`, coming right after `card` in the arranged hand, goes on
/// with the run that `card` is in: by suit for a point, by suit and the
/// very next rank for a sequence, by rank for a set.
pub open spec fn linked(family: CombinationType, card: Card, next: Card) -> bool {
    match family {
        CombinationType::Point => card.suit == next.suit,
        CombinationType::Sequence => card.suit == next.suit && card.rank.successor() == Some(
            next.rank,
        ),
        CombinationType::RankSet => card.rank == next.rank,
    }
}

/// Each card of the run is linked to the one after it.
pub open spec fn chained(family: CombinationType, run: Seq<Card>) -> bool {
    forall|j: int, k: int|
        0 <= j && k == j + 1 && k < run.len() ==> linked(
            family,
            #[trigger] run[j],
            #[trigger] run[k],
        )
}

/// Cuts the cards, in the order given, into runs: a card goes on with
/// the run of the card before it when it is linked to that card, and
/// starts a run of its own when it is not.
pub open spec fn runs(family: CombinationType, cards: Seq<Card>) -> Seq<Seq<Card>>
    decreases cards.len(),
{
    if cards.len() == 0 {
        Seq::empty()
    } else {
        let front = runs(family, cards.drop_last());
        if cards.len() >= 2 && linked(family, cards[cards.len() - 2], cards.last()) {
            front.drop_last().push(front.last().push(cards.last()))
        } else {
            front.push(seq![cards.last()])
        }
    }
}

/// The hand in the order in which a family looks at it: by rank for the
/// sets, by suit for the points and the sequences.
pub open spec fn arranged(family: CombinationType, hand: Seq<Card>) -> Seq<Card> {
    match family {
        CombinationType::RankSet => hand.sort_by(rank_order()),
        _ => hand.sort_by(suit_order()),
    }
}

/// Whether a run is kept: every run of a suit is a point; a sequence needs
/// three cards; a set needs three cards of a rank above the nine.
pub open spec fn counts(v: CombinationView) -> bool {
    match v.family {
        CombinationType::Point => true,
        CombinationType::Sequence => v.cards.len() >= 3,
        CombinationType::RankSet => v.cards.len() >= 3 && v.cards[0].rank.ord()
            > Rank::Nine.ord(),
    }
}

/// `counts` as a predicate to filter by.
pub open spec fn counting() -> spec_fn(CombinationView) -> bool {
    |v: CombinationView| counts(v)
}

/// Standing strictly below `reference`, as a predicate to filter by.
pub open spec fn below(reference: CombinationView) -> spec_fn(CombinationView) -> bool {
    |v: CombinationView| standing(v, reference) < 0
}

/// The runs as combinations of a family.
pub open spec fn wrap(family: CombinationType, groups: Seq<Seq<Card>>) -> Seq<CombinationView> {
    Seq::new(groups.len(), |i: int| CombinationView { family, cards: groups[i] })
}

/// The cards of each combination of a row.
pub open spec fn groups_of(row: Seq<CombinationView>) -> Seq<Seq<Card>> {
    Seq::new(row.len(), |i: int| row[i].cards)
}

/// The combinations of a family that a hand holds, in the order of the
/// arranged hand: its runs, those kept that count.
pub open spec fn combinations(family: CombinationType, hand: Seq<Card>) -> Seq<CombinationView> {
    wrap(family, runs(family, arranged(family, hand))).filter(counting())
}

/// Whether the card at place `i` of a combination fits the first card of
/// it: by the suit in a point, by the suit and a rank `i` higher in a
/// sequence, by the rank in a set.
pub open spec fn fits(family: CombinationType, first: Card, card: Card, i: int) -> bool {
    match family {
        CombinationType::Point => card.suit == first.suit,
        CombinationType::Sequence => card.suit == first.suit && card.rank.ord() == first.rank.ord()
            + i,
        CombinationType::RankSet => card.rank == first.rank,
    }
}

/// What the cards of a combination have in common. A point is one or more
/// cards of one suit. A sequence is three or more cards of one suit whose
/// ranks go up one by one. A set is three or more cards of one rank above
/// the nine.
pub open spec fn holds(v: CombinationView) -> bool {
    let c = v.cards;
    &&& c.len() >= 1
    &&& v.family != CombinationType::Point ==> c.len() >= 3
    &&& v.family == CombinationType::RankSet ==> c[0].rank.ord() > Rank::Nine.ord()
    &&& forall|i: int| 0 <= i < c.len() ==> fits(v.family, c[0], #[trigger] c[i], i)
}

/// King, queen or jack.
pub open spec fn is_court(rank: Rank) -> bool {
    rank == Rank::King || rank == Rank::Queen || rank == Rank::Jack
}

/// No king, queen or jack among the cards.
pub open spec fn carte_blanche(cards: Seq<Card>) -> bool {
    forall|i: int| 0 <= i < cards.len() ==> !is_court((#[trigger] cards[i]).rank)
}

/// The runs of a sequence of cards, put end to end, are that sequence:
/// every card is in one run and in one only. No run is empty, each is
/// chained, and where one run ends and the next begins the two cards are
/// not linked.
#[verifier::rlimit(40)]
pub proof fn lemma_runs(family: CombinationType, cards: Seq<Card>)
    ensures
        runs(family, cards).flatten() == cards,
        cards.len() == 0 <==> runs(family, cards).len() == 0,
        runs(family, cards).len() <= cards.len(),
        cards.len() > 0 ==> runs(family, cards).last().len() > 0 && runs(
            family,
            cards,
        ).last().last() == cards.last(),
        forall|g: int|
            0 <= g < runs(family, cards).len() ==> (#[trigger] runs(family, cards)[g]).len() >= 1
                && chained(family, runs(family, cards)[g]),
        forall|g: int, h: int|
            0 <= g && h == g + 1 && h < runs(family, cards).len() ==> !linked(
                family,
                (#[trigger] runs(family, cards)[g]).last(),
                (#[trigger] runs(family, cards)[h]).first(),
            ),
    decreases cards.len(),
{
    if cards.len() == 0 {
    } else {
        let front_cards = cards.drop_last();
        let front = runs(family, front_cards);
        let all = runs(family, cards);
        let card = cards.last();
        lemma_runs(family, front_cards);
        if cards.len() >= 2 && linked(family, cards[cards.len() - 2], card) {
            let head = front.drop_last();
            let tail = front.last();
            assert(front_cards.last() == cards[cards.len() - 2]);
            assert(front =~= head.push(tail));
            head.lemma_flatten_push(tail);
            head.lemma_flatten_push(tail.push(card));
            assert(cards =~= front_cards.push(card));
            assert(all == head.push(tail.push(card)));
            assert(front.flatten() == head.flatten() + tail);
            assert(all.flatten() =~= head.flatten() + tail.push(card));
            assert(all.flatten() =~= cards);
            assert forall|g: int| 0 <= g < all.len() implies (#[trigger] all[g]).len() >= 1
                && chained(family, all[g]) by {
                if g < head.len() {
                    assert(all[g] == front[g]);
                } else {
                    let grown = tail.push(card);
                    assert(all[g] == grown);
                    assert forall|j: int, k: int|
                        0 <= j && k == j + 1 && k < grown.len() implies linked(
                        family,
                        #[trigger] grown[j],
                        #[trigger] grown[k],
                    ) by {
                        if k < tail.len() {
                            assert(grown[j] == tail[j] && grown[k] == tail[k]);
                        } else {
                            assert(grown[j] == tail.last());
                        }
                    }
                }
            }
            assert forall|g: int, h: int|
                0 <= g && h == g + 1 && h < all.len() implies !linked(
                family,
                (#[trigger] all[g]).last(),
                (#[trigger] all[h]).first(),
            ) by {
                assert(all[g] == front[g]);
                if h < head.len() {
                    assert(all[h] == front[h]);
                } else {
                    assert(all[h].first() == tail.first());
                    assert(front[h] == tail);
                }
            }
        } else {
            front.lemma_flatten_push(seq![card]);
            assert(cards =~= front_cards.push(card));
            assert(all == front.push(seq![card]));
            assert(all.flatten() =~= cards);
            assert forall|g: int| 0 <= g < all.len() implies (#[trigger] all[g]).len() >= 1
                && chained(family, all[g]) by {
                if g < front.len() {
                    assert(all[g] == front[g]);
                }
            }
            assert forall|g: int, h: int|
                0 <= g && h == g + 1 && h < all.len() implies !linked(
                family,
                (#[trigger] all[g]).last(),
                (#[trigger] all[h]).first(),
            ) by {
                assert(all[g] == front[g]);
                if h < front.len() {
                    assert(all[h] == front[h]);
                } else {
                    assert(all[h].first() == card);
                    assert(front.last().last() == cards[cards.len() - 2]);
                }
            }
        }
    }
}

/// Along a chained run the cards keep what links them: the suit in a
/// point, the suit in a sequence with the rank one higher at each step,
/// the rank in a set.
pub proof fn lemma_chain(family: CombinationType, run: Seq<Card>, i: int)
    requires
        chained(family, run),
        0 <= i < run.len(),
    ensures
        family != CombinationType::RankSet ==> run[i].suit == run[0].suit,
        family == CombinationType::Sequence ==> run[i].rank.ord() == run[0].rank.ord() + i,
        family == CombinationType::RankSet ==> run[i].rank == run[0].rank,
    decreases i,
{
    if i > 0 {
        lemma_chain(family, run, i - 1);
        assert(linked(family, run[i - 1], run[i]));
    }
}

/// A run that is chained and counts holds as a combination of its family.
pub proof fn lemma_run_holds(family: CombinationType, run: Seq<Card>)
    requires
        run.len() >= 1,
        chained(family, run),
        counts(CombinationView { family, cards: run }),
    ensures
        holds(CombinationView { family, cards: run }),
{
    assert forall|i: int| 0 <= i < run.len() implies {
        &&& family != CombinationType::RankSet ==> (#[trigger] run[i]).suit == run[0].suit
        &&& family == CombinationType::Sequence ==> run[i].rank.ord() == run[0].rank.ord() + i
        &&& family == CombinationType::RankSet ==> run[i].rank == run[0].rank
    } by {
        lemma_chain(family, run, i);
    }
}

/// Every combination found in a hand holds: each sequence is of one suit
/// with ranks going up one by one and has three cards or more; each set is
/// of one rank above the nine and has three cards or more; each point is
/// of one suit.
pub proof fn lemma_combinations_hold(family: CombinationType, hand: Seq<Card>)
    ensures
        forall|i: int|
            0 <= i < combinations(family, hand).len() ==> holds(
                #[trigger] combinations(family, hand)[i],
            ) && combinations(family, hand)[i].family == family,
{
    let all = runs(family, arranged(family, hand));
    let row = wrap(family, all);
    let kept = row.filter(counting());
    lemma_runs(family, arranged(family, hand));
    assert forall|i: int| 0 <= i < kept.len() implies holds(#[trigger] kept[i]) && kept[i].family
        == family by {
        row.lemma_filter_pred(counting(), i);
        assert(kept.contains(kept[i]));
        row.lemma_filter_contains_rev(counting(), kept[i]);
        let g = choose|g: int| 0 <= g < row.len() && row[g] == kept[i];
        assert(kept[i] == CombinationView { family, cards: all[g] });
        lemma_run_holds(family, all[g]);
    }
}

/// What is kept of a row is no longer than the row, and holds no
/// combination of more cards than the row does.
pub proof fn lemma_filter_bounded(
    row: Seq<CombinationView>,
    keep: spec_fn(CombinationView) -> bool,
    n: nat,
)
    requires
        forall|i: int| 0 <= i < row.len() ==> (#[trigger] row[i]).cards.len() <= n,
    ensures
        row.filter(keep).len() <= row.len(),
        forall|i: int|
            0 <= i < row.filter(keep).len() ==> (#[trigger] row.filter(keep)[i]).cards.len() <= n,
{
    let kept = row.filter(keep);
    row.lemma_filter_len(keep);
    assert forall|i: int| 0 <= i < kept.len() implies (#[trigger] kept[i]).cards.len() <= n by {
        assert(kept.contains(kept[i]));
        row.lemma_filter_contains_rev(keep, kept[i]);
        let g = choose|g: int| 0 <= g < row.len() && row[g] == kept[i];
        assert(row[g].cards.len() <= n);
    }
}

/// A hand holds no more combinations of a family than it has cards, and
/// none of more cards than the hand has.
pub proof fn lemma_combinations_bounded(family: CombinationType, hand: Seq<Card>)
    ensures
        combinations(family, hand).len() <= hand.len(),
        forall|i: int|
            0 <= i < combinations(family, hand).len() ==> (#[trigger] combinations(
                family,
                hand,
            )[i]).cards.len() <= hand.len(),
{
    broadcast use group_to_multiset_ensures;

    let sorted = arranged(family, hand);
    let all = runs(family, sorted);
    let row = wrap(family, all);
    lemma_orders_total();
    hand.lemma_sort_by_ensures(rank_order());
    hand.lemma_sort_by_ensures(suit_order());
    assert(sorted.len() == sorted.to_multiset().len());
    assert(hand.len() == hand.to_multiset().len());
    lemma_runs(family, sorted);
    assert forall|g: int| 0 <= g < row.len() implies (#[trigger] row[g]).cards.len()
        <= hand.len() by {
        all.lemma_flatten_length_ge_single_element_length(g);
        all.lemma_flatten_and_flatten_alt_are_equivalent();
    }
    lemma_filter_bounded(row, counting(), hand.len());
}

/// Filtering by what every element meets keeps the whole sequence.
proof fn lemma_filter_all(row: Seq<CombinationView>, keep: spec_fn(CombinationView) -> bool)
    requires
        forall|i: int| 0 <= i < row.len() ==> keep(#[trigger] row[i]),
    ensures
        row.filter(keep) == row,
    decreases row.len(),
{
    reveal(Seq::filter);
    if row.len() > 0 {
        lemma_filter_all(row.drop_last(), keep);
        assert(row.drop_last().push(row.last()) =~= row);
    }
}

/// The points found in a hand part it: put end to end they are the hand
/// sorted by suit, so every card of the hand is in one point and in one only.
pub proof fn lemma_points_part_hand(hand: Seq<Card>)
    ensures
        groups_of(combinations(CombinationType::Point, hand)).flatten() == hand.sort_by(
            suit_order(),
        ),
        groups_of(combinations(CombinationType::Point, hand)).flatten().to_multiset()
            == hand.to_multiset(),
{
    let family = CombinationType::Point;
    let sorted = hand.sort_by(suit_order());
    let all = runs(family, sorted);
    let row = wrap(family, all);
    lemma_filter_all(row, counting());
    assert(groups_of(row) =~= all);
    lemma_runs(family, sorted);
    lemma_orders_total();
    hand.lemma_sort_by_ensures(suit_order());
}

/// The runs of the first card alone.
proof fn lemma_runs_first(family: CombinationType, cards: Seq<Card>)
    requires
        cards.len() >= 1,
    ensures
        runs(family, cards.take(1)) == Seq::<Seq<Card>>::empty().push(
            Seq::<Card>::empty().push(cards[0]),
        ),
{
    let one = cards.take(1);
    assert(one.drop_last() =~= Seq::<Card>::empty());
    assert(runs(family, one.drop_last()) =~= Seq::<Seq<Card>>::empty());
    assert(seq![one.last()] =~= Seq::<Card>::empty().push(cards[0]));
    assert(runs(family, one) =~= Seq::<Seq<Card>>::empty().push(seq![one.last()]));
}

/// The runs of one card more: it goes on with the last run or starts the next.
proof fn lemma_runs_next(
    family: CombinationType,
    cards: Seq<Card>,
    i: int,
    done: Seq<Seq<Card>>,
    current: Seq<Card>,
)
    requires
        1 <= i < cards.len(),
        runs(family, cards.take(i)) == done.push(current),
    ensures
        linked(family, cards[i - 1], cards[i]) ==> runs(family, cards.take(i + 1)) == done.push(
            current.push(cards[i]),
        ),
        !linked(family, cards[i - 1], cards[i]) ==> runs(family, cards.take(i + 1)) == done.push(
            current,
        ).push(Seq::<Card>::empty().push(cards[i])),
{
    let upto = cards.take(i + 1);
    let front = runs(family, cards.take(i));
    assert(upto.drop_last() =~= cards.take(i));
    assert(upto[upto.len() - 2] == cards[i - 1]);
    assert(upto.last() == cards[i]);
    assert(front.drop_last() =~= done);
    assert(front.last() == current);
    assert(seq![upto.last()] =~= Seq::<Card>::empty().push(cards[i]));
    if linked(family, cards[i - 1], cards[i]) {
        assert(runs(family, upto) =~= done.push(current.push(cards[i])));
    } else {
        assert(runs(family, upto) =~= front.push(seq![upto.last()]));
    }
}

/// Of no runs nothing is kept.
proof fn lemma_no_runs(family: CombinationType)
    ensures
        wrap(family, Seq::<Seq<Card>>::empty()).filter(counting()) == Seq::<
            CombinationView,
        >::empty(),
{
    reveal(Seq::filter);
    assert(wrap(family, Seq::<Seq<Card>>::empty()) =~= Seq::<CombinationView>::empty());
}

fn joins(family: CombinationType, card: &Card, next: &Card) -> (linked_up: bool)
    ensures
        linked_up == linked(family, *card, *next),
{
    match family {
        CombinationType::Point => card.suit == next.suit,
        CombinationType::Sequence => card.suit == next.suit && match card.rank.succ() {
            Some(rank) => rank == next.rank,
            None => false,
        },
        CombinationType::RankSet => card.rank == next.rank,
    }
}

fn is_counted(family: CombinationType, run: &Vec<Card>) -> (kept: bool)
    requires
        run@.len() >= 1,
    ensures
        kept == counts(CombinationView { family, cards: run@ }),
{
    match family {
        CombinationType::Point => true,
        CombinationType::Sequence => run.len() > 2,
        CombinationType::RankSet => run.len() > 2 && run[0].rank.index() > Rank::Nine.index(),
    }
}

/// Closes a run: it joins the runs that are done, and is kept if it counts.
fn close_run(
    family: CombinationType,
    found: &mut Vec<Combination>,
    run: Vec<Card>,
    Ghost(done): Ghost<Seq<Seq<Card>>>,
)
    requires
        run@.len() >= 1,
        views(old(found)@) == wrap(family, done).filter(counting()),
    ensures
        views(final(found)@) == wrap(family, done.push(run@)).filter(counting()),
{
    let ghost v = CombinationView { family, cards: run@ };
    proof {
        assert(wrap(family, done.push(run@)) =~= wrap(family, done).push(v));
        wrap(family, done).lemma_filter_push(v, counting());
    }
    if is_counted(family, &run) {
        found.push(Combination::new(family, Hand::new(run)));
        assert(views(found@) =~= views(old(found)@).push(v));
    }
}

/// The combinations of one family that the hand holds. The hand itself is
/// left as it is: a sorted copy of it is cut into runs, and the runs that
/// count are kept, in the order of the sorted copy.
#[verifier::rlimit(40)]
pub fn get_combinations(ctype: &CombinationType, hand: &Hand) -> (found: Vec<Combination>)
    ensures
        views(found@) == combinations(*ctype, hand@),
        forall|i: int|
            0 <= i < found@.len() ==> holds((#[trigger] found@[i])@) && found@[i]@.family
                == *ctype,
        *ctype == CombinationType::Point ==> groups_of(views(found@)).flatten().to_multiset()
            == hand@.to_multiset(),
{
    let family = *ctype;
    let mut chand = hand.clone();
    match family {
        CombinationType::RankSet => chand.sort_by_rank(),
        _ => chand.sort_by_suit(),
    }
    let cards = chand.cards();
    assert(cards@ == arranged(family, hand@));
    let mut found: Vec<Combination> = Vec::new();
    let ghost mut done: Seq<Seq<Card>> = Seq::empty();
    proof {
        lemma_no_runs(family);
        if cards@.len() > 0 {
            lemma_runs_first(family, cards@);
        }
        assert(views(found@) =~= Seq::<CombinationView>::empty());
    }
    if cards.len() > 0 {
        let mut current: Vec<Card> = Vec::new();
        current.push(cards[0]);
        let mut i: usize = 1;
        while i < cards.len()
            invariant
                1 <= i <= cards.len(),
                current@.len() >= 1,
                runs(family, cards@.take(i as int)) == done.push(current@),
                views(found@) == wrap(family, done).filter(counting()),
            decreases cards.len() - i,
        {
            let card = cards[i];
            proof {
                lemma_runs_next(family, cards@, i as int, done, current@);
            }
            if joins(family, &cards[i - 1], &card) {
                current.push(card);
            } else {
                close_run(family, &mut found, current, Ghost(done));
                proof {
                    done = done.push(current@);
                }
                current = Vec::new();
                current.push(card);
            }
            i += 1;
        }
        assert(cards@.take(cards.len() as int) == cards@);
        close_run(family, &mut found, current, Ghost(done));
    }
    proof {
        lemma_combinations_hold(family, hand@);
        assert forall|i: int| 0 <= i < found@.len() implies holds((#[trigger] found@[i])@)
            && found@[i]@.family == family by {
            assert(views(found@)[i] == found@[i]@);
        }
        if family == CombinationType::Point {
            lemma_points_part_hand(hand@);
        }
    }
    found
}

/// Those of `combs` that stand strictly below `mcomb`, in their order;
/// none where there is nothing to stand below.
pub fn get_smaller_combinations(mcomb: Option<Combination>, combs: Vec<Combination>) -> (smaller:
    Vec<Combination>)
    ensures
        views(smaller@) == match mcomb {
            None => Seq::<CombinationView>::empty(),
            Some(comb) => views(combs@).filter(below(comb@)),
        },
{
    let mut smaller: Vec<Combination> = Vec::new();
    match mcomb {
        None => {
            assert(views(smaller@) =~= Seq::<CombinationView>::empty());
        },
        Some(comb) => {
            let mut i: usize = 0;
            proof {
                reveal(Seq::filter);
                assert(views(combs@.take(0)) =~= Seq::<CombinationView>::empty());
                assert(views(smaller@) =~= views(combs@.take(0)).filter(below(comb@)));
            }
            while i < combs.len()
                invariant
                    i <= combs.len(),
                    views(smaller@) == views(combs@.take(i as int)).filter(below(comb@)),
                decreases combs.len() - i,
            {
                let ghost before = views(combs@.take(i as int));
                let ghost v = combs@[i as int]@;
                proof {
                    assert(views(combs@.take(i + 1)) =~= before.push(v));
                    before.lemma_filter_push(v, below(comb@));
                }
                if combs[i].stands(&comb) < 0 {
                    let ghost kept = views(smaller@);
                    smaller.push(combs[i].clone());
                    assert(views(smaller@) =~= kept.push(v));
                }
                i += 1;
            }
            assert(combs@.take(combs.len() as int) == combs@);
        },
    }
    smaller
}

/// Whether the hand is a carte blanche: a hand without king, queen or jack.
pub fn is_carte_blanche(hand: Hand) -> (blank: bool)
    ensures
        blank == carte_blanche(hand@),
{
    let cards = hand.cards();
    let mut i: usize = 0;
    while i < cards.len()
        invariant
            i <= cards.len(),
            cards@ == hand@,
            forall|k: int| 0 <= k < i ==> !is_court((#[trigger] cards@[k]).rank),
        decreases cards.len() - i,
    {
        let rank = cards[i].rank;
        if rank == Rank::King || rank == Rank::Queen || rank == Rank::Jack {
            assert(is_court(cards@[i as int].rank));
            assert(!carte_blanche(cards@));
            return false;
        }
        i += 1;
    }
    true
}

} // verus!
