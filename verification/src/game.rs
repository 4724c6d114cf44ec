//! The phases of a deal, the moves that players make in them, and the game
//! that holds both players and keeps the score.
//!
//! A deal passes through twenty phases in a fixed order. Some wait for a
//! player: the two exchanges, the elder's declaration in each family and
//! the younger's answer to it, the lead of the first card, and the play of
//! the cards. A player's move comes in through [`Game::apply_move`]; it is
//! accepted or refused as a whole, and a refused move changes nothing. The
//! other phases are the game's own: the start, the deal of the cards, the
//! settling of each family for the elder and, after the first card, for
//! the younger, and the record of the deal that is played out. The game
//! takes them one at a time through [`Game::advance`].
//!
//! The best combination of each family is looked for in a player's hand
//! when the exchange has given the hand its final shape. A family is won
//! by weighing the best combinations of the two players; a tie scores for
//! neither.

use crate::cards::{
    card_at, full_deck, hand_sign, highest_key, lemma_full_deck, lemma_permuted_deck, without,
    Card, Deck, Hand, Rank,
};
use crate::random::{coin, seeded};
use rand_xorshift::XorShiftRng;
use crate::combinations::{
    below, carte_blanche, combinations, decimal, decimal_text, get_combinations,
    get_smaller_combinations, is_carte_blanche, lemma_combinations_bounded, lemma_filter_bounded,
    score, standing, views, Combination, CombinationType, CombinationView,
};
use vstd::multiset::Multiset;
use vstd::prelude::*;
use vstd::seq_lib::{group_to_multiset_ensures, lemma_multiset_commutative};

verus! {

/// The six deals of a game.
#[derive(Debug, Clone, Copy, PartialEq, Eq, Structural)]
pub enum Deal {
    One,
    Two,
    Three,
    Four,
    Five,
    Six,
}

/// The phases of a deal, in the order in which a deal passes through them.
#[derive(Debug, Clone, Copy, PartialEq, Eq, PartialOrd, Ord, Hash, Structural)]
pub enum Step {
    Start,
    Deal,
    ExchangeElder,
    ExchangeYounger,
    DeclarePointElder,
    DeclarePointResponse,
    SetPointsPointElder,
    DeclareSequenceElder,
    DeclareSequenceResponse,
    SetPointsSequenceElder,
    DeclareSetElder,
    DeclareSetResponse,
    SetPointsSetElder,
    PlayFirstCard,
    SetPointsPointYounger,
    SetPointsSequenceYounger,
    SetPointsSetYounger,
    PlayCards,
    PlayEnd,
    End,
}

/// The two roles of a deal: the elder moves first, the younger answers.
#[derive(Debug, Clone, Copy, PartialEq, Eq, Structural)]
pub enum Role {
    Elder,
    Younger,
}

/// What a phase is for.
#[derive(Debug, Clone, Copy, PartialEq, Eq, Structural)]
pub enum Business {
    /// The game itself moves on: nothing is asked of a player.
    Opening,
    /// The named player gives up cards and draws from the talon.
    Exchange(Role),
    /// The elder declares in a family.
    Declare(CombinationType),
    /// The younger answers the elder's declaration in a family.
    Respond(CombinationType),
    /// The family is settled for the named player: if that player has won
    /// it, the points are put down.
    Settle(Role, CombinationType),
    /// The elder leads the first card.
    Lead,
    /// The players play their cards in turn.
    Play,
    /// The deal is put on record.
    Close,
    /// The deal is over.
    Over,
}

impl Step {
    /// Place of the phase in a deal, from 0 for the start to 19 for the end.
    pub open spec fn ord(self) -> int {
        match self {
            Step::Start => 0,
            Step::Deal => 1,
            Step::ExchangeElder => 2,
            Step::ExchangeYounger => 3,
            Step::DeclarePointElder => 4,
            Step::DeclarePointResponse => 5,
            Step::SetPointsPointElder => 6,
            Step::DeclareSequenceElder => 7,
            Step::DeclareSequenceResponse => 8,
            Step::SetPointsSequenceElder => 9,
            Step::DeclareSetElder => 10,
            Step::DeclareSetResponse => 11,
            Step::SetPointsSetElder => 12,
            Step::PlayFirstCard => 13,
            Step::SetPointsPointYounger => 14,
            Step::SetPointsSequenceYounger => 15,
            Step::SetPointsSetYounger => 16,
            Step::PlayCards => 17,
            Step::PlayEnd => 18,
            Step::End => 19,
        }
    }

    /// The phase at a place of the deal.
    pub open spec fn of(i: int) -> Step {
        if i <= 0 {
            Step::Start
        } else if i == 1 {
            Step::Deal
        } else if i == 2 {
            Step::ExchangeElder
        } else if i == 3 {
            Step::ExchangeYounger
        } else if i == 4 {
            Step::DeclarePointElder
        } else if i == 5 {
            Step::DeclarePointResponse
        } else if i == 6 {
            Step::SetPointsPointElder
        } else if i == 7 {
            Step::DeclareSequenceElder
        } else if i == 8 {
            Step::DeclareSequenceResponse
        } else if i == 9 {
            Step::SetPointsSequenceElder
        } else if i == 10 {
            Step::DeclareSetElder
        } else if i == 11 {
            Step::DeclareSetResponse
        } else if i == 12 {
            Step::SetPointsSetElder
        } else if i == 13 {
            Step::PlayFirstCard
        } else if i == 14 {
            Step::SetPointsPointYounger
        } else if i == 15 {
            Step::SetPointsSequenceYounger
        } else if i == 16 {
            Step::SetPointsSetYounger
        } else if i == 17 {
            Step::PlayCards
        } else if i == 18 {
            Step::PlayEnd
        } else {
            Step::End
        }
    }

    /// The phase after this one; the end has none.
    pub open spec fn next(self) -> Option<Step> {
        match self {
            Step::Start => Some(Step::Deal),
            Step::Deal => Some(Step::ExchangeElder),
            Step::ExchangeElder => Some(Step::ExchangeYounger),
            Step::ExchangeYounger => Some(Step::DeclarePointElder),
            Step::DeclarePointElder => Some(Step::DeclarePointResponse),
            Step::DeclarePointResponse => Some(Step::SetPointsPointElder),
            Step::SetPointsPointElder => Some(Step::DeclareSequenceElder),
            Step::DeclareSequenceElder => Some(Step::DeclareSequenceResponse),
            Step::DeclareSequenceResponse => Some(Step::SetPointsSequenceElder),
            Step::SetPointsSequenceElder => Some(Step::DeclareSetElder),
            Step::DeclareSetElder => Some(Step::DeclareSetResponse),
            Step::DeclareSetResponse => Some(Step::SetPointsSetElder),
            Step::SetPointsSetElder => Some(Step::PlayFirstCard),
            Step::PlayFirstCard => Some(Step::SetPointsPointYounger),
            Step::SetPointsPointYounger => Some(Step::SetPointsSequenceYounger),
            Step::SetPointsSequenceYounger => Some(Step::SetPointsSetYounger),
            Step::SetPointsSetYounger => Some(Step::PlayCards),
            Step::PlayCards => Some(Step::PlayEnd),
            Step::PlayEnd => Some(Step::End),
            Step::End => None,
        }
    }

    /// The phase after this one, or this one where it is the last.
    pub open spec fn following(self) -> Step {
        match self.next() {
            Some(step) => step,
            None => self,
        }
    }

    /// What the phase is for.
    pub open spec fn business(self) -> Business {
        match self {
            Step::Start => Business::Opening,
            Step::Deal => Business::Opening,
            Step::ExchangeElder => Business::Exchange(Role::Elder),
            Step::ExchangeYounger => Business::Exchange(Role::Younger),
            Step::DeclarePointElder => Business::Declare(CombinationType::Point),
            Step::DeclarePointResponse => Business::Respond(CombinationType::Point),
            Step::SetPointsPointElder => Business::Settle(Role::Elder, CombinationType::Point),
            Step::DeclareSequenceElder => Business::Declare(CombinationType::Sequence),
            Step::DeclareSequenceResponse => Business::Respond(CombinationType::Sequence),
            Step::SetPointsSequenceElder => Business::Settle(
                Role::Elder,
                CombinationType::Sequence,
            ),
            Step::DeclareSetElder => Business::Declare(CombinationType::RankSet),
            Step::DeclareSetResponse => Business::Respond(CombinationType::RankSet),
            Step::SetPointsSetElder => Business::Settle(Role::Elder, CombinationType::RankSet),
            Step::PlayFirstCard => Business::Lead,
            Step::SetPointsPointYounger => Business::Settle(Role::Younger, CombinationType::Point),
            Step::SetPointsSequenceYounger => Business::Settle(
                Role::Younger,
                CombinationType::Sequence,
            ),
            Step::SetPointsSetYounger => Business::Settle(Role::Younger, CombinationType::RankSet),
            Step::PlayCards => Business::Play,
            Step::PlayEnd => Business::Close,
            Step::End => Business::Over,
        }
    }

    /// Whose move the phase waits for; nobody's where the game itself moves on.
    /// In the play of the cards the turn goes by `elder_to_play`.
    pub open spec fn owner(self, elder_to_play: bool) -> Option<Role> {
        match self.business() {
            Business::Exchange(role) => Some(role),
            Business::Declare(_) => Some(Role::Elder),
            Business::Respond(_) => Some(Role::Younger),
            Business::Lead => Some(Role::Elder),
            Business::Play => Some(
                if elder_to_play {
                    Role::Elder
                } else {
                    Role::Younger
                },
            ),
            _ => None,
        }
    }

    pub fn succ(&self) -> (next: Option<Self>)
        ensures
            next == self.next(),
            next matches Some(step) ==> step.ord() == self.ord() + 1,
            next is None <==> *self == Step::End,
    {
        match self {
            Step::Start => Some(Step::Deal),
            Step::Deal => Some(Step::ExchangeElder),
            Step::ExchangeElder => Some(Step::ExchangeYounger),
            Step::ExchangeYounger => Some(Step::DeclarePointElder),
            Step::DeclarePointElder => Some(Step::DeclarePointResponse),
            Step::DeclarePointResponse => Some(Step::SetPointsPointElder),
            Step::SetPointsPointElder => Some(Step::DeclareSequenceElder),
            Step::DeclareSequenceElder => Some(Step::DeclareSequenceResponse),
            Step::DeclareSequenceResponse => Some(Step::SetPointsSequenceElder),
            Step::SetPointsSequenceElder => Some(Step::DeclareSetElder),
            Step::DeclareSetElder => Some(Step::DeclareSetResponse),
            Step::DeclareSetResponse => Some(Step::SetPointsSetElder),
            Step::SetPointsSetElder => Some(Step::PlayFirstCard),
            Step::PlayFirstCard => Some(Step::SetPointsPointYounger),
            Step::SetPointsPointYounger => Some(Step::SetPointsSequenceYounger),
            Step::SetPointsSequenceYounger => Some(Step::SetPointsSetYounger),
            Step::SetPointsSetYounger => Some(Step::PlayCards),
            Step::PlayCards => Some(Step::PlayEnd),
            Step::PlayEnd => Some(Step::End),
            Step::End => None,
        }
    }

    /// The phase after this one, or this one where it is the last.
    pub fn after(&self) -> (step: Step)
        ensures
            step == self.following(),
            self.ord() < 19 ==> step.ord() == self.ord() + 1,
    {
        match self.succ() {
            Some(step) => step,
            None => *self,
        }
    }

    /// What the phase is for.
    pub fn purpose(&self) -> (business: Business)
        ensures
            business == self.business(),
    {
        match self {
            Step::Start => Business::Opening,
            Step::Deal => Business::Opening,
            Step::ExchangeElder => Business::Exchange(Role::Elder),
            Step::ExchangeYounger => Business::Exchange(Role::Younger),
            Step::DeclarePointElder => Business::Declare(CombinationType::Point),
            Step::DeclarePointResponse => Business::Respond(CombinationType::Point),
            Step::SetPointsPointElder => Business::Settle(Role::Elder, CombinationType::Point),
            Step::DeclareSequenceElder => Business::Declare(CombinationType::Sequence),
            Step::DeclareSequenceResponse => Business::Respond(CombinationType::Sequence),
            Step::SetPointsSequenceElder => Business::Settle(
                Role::Elder,
                CombinationType::Sequence,
            ),
            Step::DeclareSetElder => Business::Declare(CombinationType::RankSet),
            Step::DeclareSetResponse => Business::Respond(CombinationType::RankSet),
            Step::SetPointsSetElder => Business::Settle(Role::Elder, CombinationType::RankSet),
            Step::PlayFirstCard => Business::Lead,
            Step::SetPointsPointYounger => Business::Settle(Role::Younger, CombinationType::Point),
            Step::SetPointsSequenceYounger => Business::Settle(
                Role::Younger,
                CombinationType::Sequence,
            ),
            Step::SetPointsSetYounger => Business::Settle(Role::Younger, CombinationType::RankSet),
            Step::PlayCards => Business::Play,
            Step::PlayEnd => Business::Close,
            Step::End => Business::Over,
        }
    }

    /// Whose move the phase waits for.
    pub fn whose_turn(&self, elder_to_play: bool) -> (role: Option<Role>)
        ensures
            role == self.owner(elder_to_play),
    {
        match self.purpose() {
            Business::Exchange(role) => Some(role),
            Business::Declare(_) => Some(Role::Elder),
            Business::Respond(_) => Some(Role::Younger),
            Business::Lead => Some(Role::Elder),
            Business::Play => Some(
                if elder_to_play {
                    Role::Elder
                } else {
                    Role::Younger
                },
            ),
            _ => None,
        }
    }
}

/// The phase reached from `step` after `n` transitions; none once the
/// deal has run past its end.
pub open spec fn advance_by(step: Step, n: nat) -> Option<Step>
    decreases n,
{
    if n == 0 {
        Some(step)
    } else {
        match advance_by(step, (n - 1) as nat) {
            Some(reached) => reached.next(),
            None => None,
        }
    }
}

/// From the start a deal reaches the phase of place `n` after `n`
/// transitions: its end after exactly nineteen, and not before. The end
/// has no successor.
pub proof fn lemma_deal_of_nineteen_steps(n: nat)
    ensures
        n <= 19 ==> advance_by(Step::Start, n) == Some(Step::of(n as int)),
        n < 19 ==> advance_by(Step::Start, n) != Some(Step::End),
        advance_by(Step::Start, 19) == Some(Step::End),
        n > 19 ==> advance_by(Step::Start, n) is None,
        Step::End.next() is None,
    decreases n,
{
    lemma_to_the_end(19);
    if n > 0 {
        lemma_to_the_end((n - 1) as nat);
        lemma_to_the_end(n);
    }
}

/// After `n` transitions from the start the deal is in the phase of place `n`.
proof fn lemma_to_the_end(n: nat)
    ensures
        n <= 19 ==> advance_by(Step::Start, n) == Some(Step::of(n as int)),
        n > 19 ==> advance_by(Step::Start, n) is None,
    decreases n,
{
    if n > 0 {
        lemma_to_the_end((n - 1) as nat);
        if n <= 19 {
            let before = Step::of(n - 1);
            assert(before.next() == Some(Step::of(n as int)));
        }
    }
}

/// One of the two seats at the table.
#[derive(Debug, Clone, Copy, PartialEq, Eq, Structural)]
pub enum PlayerId {
    P1,
    P2,
}

/// The younger's answer to a declaration.
#[derive(Debug, Clone, Copy, PartialEq, Eq, Structural)]
pub enum DeclarationResponse {
    Good,
    NotGood,
    Equals,
}

/// A combination as it is declared.
#[derive(Debug, PartialEq, Eq)]
pub struct Declaration(pub Combination);

/// What a player does, or is given, in the course of a deal.
#[derive(Debug, PartialEq, Eq)]
pub enum PlayerMove {
    CarteBlanche,
    CarteRouge,
    Exchange(Hand),
    DeclarationCount(CombinationType, u32),
    DeclarationUpper(CombinationType, Rank),
    PlayerResponse(CombinationType, DeclarationResponse),
    Declaration(Combination),
    Repique,
    PlayFirst(Card),
    Pique,
    WinAsSecond,
    WinLastTrick,
    PlayCard(Card),
    WinCards,
    Capot,
}

/// A move with the seat that made it.
#[derive(Debug, PartialEq, Eq)]
pub enum Move {
    P1Move(PlayerMove),
    P2Move(PlayerMove),
}

/// The points that a move is worth.
pub open spec fn move_points(mv: PlayerMove) -> nat {
    match mv {
        PlayerMove::CarteBlanche => 10,
        PlayerMove::CarteRouge => 20,
        PlayerMove::Pique => 30,
        PlayerMove::Repique => 60,
        PlayerMove::WinCards => 10,
        PlayerMove::Capot => 40,
        PlayerMove::PlayFirst(_) => 1,
        PlayerMove::WinAsSecond => 1,
        PlayerMove::WinLastTrick => 1,
        PlayerMove::Declaration(comb) => score(comb@),
        _ => 0,
    }
}

/// The move as made from a seat.
pub open spec fn tagged(who: PlayerId, mv: PlayerMove) -> Move {
    match who {
        PlayerId::P1 => Move::P1Move(mv),
        PlayerId::P2 => Move::P2Move(mv),
    }
}

impl PlayerMove {
    /// The points that the move is worth.
    #[allow(non_snake_case)]
    pub fn movePoints(&self) -> (points: usize)
        requires
            self matches PlayerMove::Declaration(comb) ==> comb@.cards.len() + 10 <= usize::MAX,
        ensures
            points == move_points(*self),
    {
        match self {
            PlayerMove::CarteBlanche => 10,
            PlayerMove::CarteRouge => 20,
            PlayerMove::Pique => 30,
            PlayerMove::Repique => 60,
            PlayerMove::WinCards => 10,
            PlayerMove::Capot => 40,
            PlayerMove::PlayFirst(_) => 1,
            PlayerMove::WinAsSecond => 1,
            PlayerMove::WinLastTrick => 1,
            PlayerMove::Declaration(comb) => comb.points(),
            _ => 0,
        }
    }
}

/// Why a move, or the text of a combination, was refused.
#[derive(Debug, Clone, Copy, PartialEq, Eq, Structural)]
pub enum PiquetError {
    NotYourTurnError,
    InvalidForStepError(Step),
    InvalidCombination,
    CardNotInHand,
    AlreadyConnectedError,
    NotConnectedError,
    UnknownCommand,
}

/// Who has won a family of combinations.
#[derive(Debug, Clone, Copy, PartialEq, Eq, Structural)]
pub enum DeclarationWinner {
    Elder,
    Younger,
    Tie,
    Nobody,
}

// ----------- the declaration of a family -----------
/// A combination that may be missing, as the contracts see it.
pub open spec fn seen(choice: Option<Combination>) -> Option<CombinationView> {
    match choice {
        Some(comb) => Some(comb@),
        None => None,
    }
}

/// Who wins a family, from the best combination of each player. Where
/// neither has one, nobody wins; where one has, that player wins; where
/// both have, the one whose combination stands above, and it is a tie
/// where they stand level.
pub open spec fn winner_of(
    elder: Option<CombinationView>,
    younger: Option<CombinationView>,
) -> DeclarationWinner {
    match (elder, younger) {
        (None, None) => DeclarationWinner::Nobody,
        (Some(_), None) => DeclarationWinner::Elder,
        (None, Some(_)) => DeclarationWinner::Younger,
        (Some(e), Some(y)) => if standing(e, y) > 0 {
            DeclarationWinner::Elder
        } else if standing(e, y) < 0 {
            DeclarationWinner::Younger
        } else {
            DeclarationWinner::Tie
        },
    }
}

/// The combination that wins a family; none in a tie or where nobody declares.
pub open spec fn winning(
    elder: Option<CombinationView>,
    younger: Option<CombinationView>,
) -> Option<CombinationView> {
    match winner_of(elder, younger) {
        DeclarationWinner::Elder => elder,
        DeclarationWinner::Younger => younger,
        _ => None,
    }
}

/// The points of all the combinations of a row.
pub open spec fn total_score(row: Seq<CombinationView>) -> nat
    decreases row.len(),
{
    if row.len() == 0 {
        0
    } else {
        total_score(row.drop_last()) + score(row.last())
    }
}

/// What the winner of a family puts down: the points of the winning
/// combination, and with them the points of those combinations of the
/// family in the winner's hand that stand below the loser's best. Where
/// the loser has declared nothing, there is nothing to stand below.
pub open spec fn award(
    best: CombinationView,
    rival: Option<CombinationView>,
    hand: Seq<Card>,
) -> nat {
    score(best) + match rival {
        None => 0,
        Some(r) => total_score(combinations(best.family, hand).filter(below(r))),
    }
}

/// The best of a row: the first that none of the others stands above.
pub open spec fn best(row: Seq<CombinationView>) -> Option<CombinationView>
    decreases row.len(),
{
    if row.len() == 0 {
        None
    } else {
        match best(row.drop_last()) {
            None => Some(row.last()),
            Some(top) => if standing(row.last(), top) > 0 {
                Some(row.last())
            } else {
                Some(top)
            },
        }
    }
}

/// The best of a row is one of the row, and where the row is of one
/// family none of the row stands above it.
pub proof fn lemma_best(row: Seq<CombinationView>)
    ensures
        best(row) is None <==> row.len() == 0,
        best(row) matches Some(top) ==> row.contains(top),
        (forall|i: int| 0 <= i < row.len() ==> (#[trigger] row[i]).family == row[0].family)
            ==> (forall|i: int|
            0 <= i < row.len() ==> standing(#[trigger] row[i], best(row)->0) <= 0),
    decreases row.len(),
{
    if row.len() > 0 {
        let front = row.drop_last();
        lemma_best(front);
        match best(front) {
            None => {
                assert(row[row.len() - 1] == row.last());
            },
            Some(top) => {
                let i = choose|i: int| 0 <= i < front.len() && front[i] == top;
                assert(row[i] == top);
                assert(row[row.len() - 1] == row.last());
                if forall|i: int|
                    0 <= i < row.len() ==> (#[trigger] row[i]).family == row[0].family {
                    assert forall|k: int| 0 <= k < front.len() implies (#[trigger] front[k]).family
                        == front[0].family by {
                        assert(front[k] == row[k]);
                        assert(front[0] == row[0]);
                    }
                    assert forall|k: int| 0 <= k < row.len() implies standing(
                        #[trigger] row[k],
                        best(row)->0,
                    ) <= 0 by {
                        assert(row[k].family == row[0].family);
                        assert(row[i].family == row[0].family);
                        assert(row.last().family == row[0].family);
                        if k < front.len() {
                            assert(front[k] == row[k]);
                            assert(standing(front[k], top) <= 0);
                        }
                    }
                }
            },
        }
    }
}

fn copy_choice(choice: &Option<Combination>) -> (copy: Option<Combination>)
    ensures
        seen(copy) == seen(*choice),
{
    match choice {
        Some(comb) => Some(comb.clone()),
        None => None,
    }
}

/// Settles who wins a family, from the best combination of each player.
pub fn declaration_winner(elder: &Option<Combination>, younger: &Option<Combination>) -> (winner:
    DeclarationWinner)
    ensures
        winner == winner_of(seen(*elder), seen(*younger)),
{
    match (elder, younger) {
        (None, None) => DeclarationWinner::Nobody,
        (Some(_), None) => DeclarationWinner::Elder,
        (None, Some(_)) => DeclarationWinner::Younger,
        (Some(e), Some(y)) => {
            let s = e.stands(y);
            if s > 0 {
                DeclarationWinner::Elder
            } else if s < 0 {
                DeclarationWinner::Younger
            } else {
                DeclarationWinner::Tie
            }
        },
    }
}

/// The points that the winner of a family puts down: `best` is the
/// winning combination, `rival` the best of the loser, `hand` the
/// winner's hand.
#[verifier::rlimit(40)]
pub fn declaration_award(best: &Combination, rival: &Option<Combination>, hand: &Hand) -> (points:
    u32)
    requires
        best@.cards.len() <= 32,
        hand@.len() <= 32,
    ensures
        points == award(best@, seen(*rival), hand@),
        points <= 1386,
{
    let family = best.family();
    let all = get_combinations(&family, hand);
    let smaller = get_smaller_combinations(copy_choice(rival), all);
    proof {
        lemma_combinations_bounded(family, hand@);
        match seen(*rival) {
            Some(r) => {
                lemma_filter_bounded(combinations(family, hand@), below(r), hand@.len());
            },
            None => {},
        }
        assert(views(all@) == combinations(family, hand@));
        assert(views(smaller@).len() <= 32);
        assert forall|i: int| 0 <= i < smaller@.len() implies (#[trigger] views(
            smaller@,
        )[i]).cards.len() <= 32 by {
            match seen(*rival) {
                Some(r) => {
                    let kept = combinations(family, hand@).filter(below(r));
                    assert(views(smaller@) == kept);
                    assert(kept[i].cards.len() <= hand@.len());
                },
                None => {},
            }
        }
    }
    let mut total: u32 = 0;
    let mut i: usize = 0;
    while i < smaller.len()
        invariant
            i <= smaller.len(),
            smaller@.len() <= 32,
            forall|k: int|
                0 <= k < smaller@.len() ==> (#[trigger] views(smaller@)[k]).cards.len() <= 32,
            total == total_score(views(smaller@).take(i as int)),
            total <= 42 * i,
        decreases smaller.len() - i,
    {
        proof {
            let upto = views(smaller@).take(i + 1);
            assert(upto.drop_last() == views(smaller@).take(i as int));
            assert(upto.last() == views(smaller@)[i as int]);
            assert(views(smaller@)[i as int] == smaller@[i as int]@);
        }
        total = total + smaller[i].points() as u32;
        i += 1;
    }
    proof {
        assert(views(smaller@).take(smaller@.len() as int) == views(smaller@));
        assert(total_score(Seq::<CombinationView>::empty()) == 0);
    }
    best.points() as u32 + total
}

/// The best of a row of combinations: the first that none of the others
/// stands above. None in an empty row.
pub fn best_combination(row: &Vec<Combination>) -> (top: Option<Combination>)
    ensures
        seen(top) == best(views(row@)),
{
    if row.len() == 0 {
        assert(views(row@) =~= Seq::<CombinationView>::empty());
        return None;
    }
    let mut at: usize = 0;
    let mut i: usize = 1;
    proof {
        let one = views(row@).take(1);
        assert(one.drop_last() =~= Seq::<CombinationView>::empty());
        assert(best(one.drop_last()) is None);
        assert(one.last() == row@[0]@);
    }
    while i < row.len()
        invariant
            at < i <= row.len(),
            best(views(row@).take(i as int)) == Some(row@[at as int]@),
        decreases row.len() - i,
    {
        proof {
            let upto = views(row@).take(i + 1);
            assert(upto.drop_last() == views(row@).take(i as int));
            assert(upto.last() == row@[i as int]@);
        }
        if row[i].stands(&row[at]) > 0 {
            at = i;
        }
        i += 1;
    }
    assert(views(row@).take(row@.len() as int) == views(row@));
    Some(row[at].clone())
}


// ----------- Player -----------
/// One of the two players, with what is theirs in the deal at hand.
#[derive(Debug)]
pub struct Player {
    hand: Hand,
    is_elder: bool,
    left_until_carte_rouge: Hand,
    card_played: Option<Card>,
    point_candidate: Option<Combination>,
    sequence_candidate: Option<Combination>,
    set_candidate: Option<Combination>,
    deal_points: u32,
    deal_wons: u32,
    game_points: u32,
    points: u32,
    name: String,
}

/// A player as the contracts see one.
#[verifier::ext_equal]
pub struct PlayerView {
    /// The cards held.
    pub hand: Seq<Card>,
    /// Whether the player is the elder of the deal.
    pub is_elder: bool,
    /// The cards that have not yet counted towards a carte rouge.
    pub left_until_carte_rouge: Seq<Card>,
    /// The card played last.
    pub card_played: Option<Card>,
    /// The best point of the hand, and likewise the best sequence and the best set.
    pub point_candidate: Option<CombinationView>,
    pub sequence_candidate: Option<CombinationView>,
    pub set_candidate: Option<CombinationView>,
    /// The points made in this deal.
    pub deal_points: nat,
    /// The tricks won in this deal.
    pub deal_wons: nat,
    /// The points of the game so far.
    pub game_points: nat,
    pub points: nat,
    pub name: Seq<char>,
}

impl PlayerView {
    /// The role in the deal.
    pub open spec fn role(self) -> Role {
        if self.is_elder {
            Role::Elder
        } else {
            Role::Younger
        }
    }

    /// The best combination of a family.
    pub open spec fn candidate(self, family: CombinationType) -> Option<CombinationView> {
        match family {
            CombinationType::Point => self.point_candidate,
            CombinationType::Sequence => self.sequence_candidate,
            CombinationType::RankSet => self.set_candidate,
        }
    }

    /// With points added to those of the deal.
    pub open spec fn credited(self, points: nat) -> PlayerView {
        PlayerView { deal_points: self.deal_points + points, ..self }
    }

    /// With a new hand after the exchange: the cards that have yet to
    /// count are those of the new hand, and the best combination of each
    /// family is looked for in it.
    pub open spec fn holding(self, hand: Seq<Card>) -> PlayerView {
        PlayerView {
            hand,
            left_until_carte_rouge: hand,
            point_candidate: best(combinations(CombinationType::Point, hand)),
            sequence_candidate: best(combinations(CombinationType::Sequence, hand)),
            set_candidate: best(combinations(CombinationType::RankSet, hand)),
            ..self
        }
    }

    /// With a card gone from the hand to the table.
    pub open spec fn having_played(self, card: Card) -> PlayerView {
        PlayerView { hand: without(self.hand, card), card_played: Some(card), ..self }
    }

    /// At the outset of a deal, with the hand dealt: nothing declared yet
    /// and nothing scored.
    pub open spec fn dealt(self, hand: Seq<Card>) -> PlayerView {
        PlayerView {
            hand,
            left_until_carte_rouge: hand,
            point_candidate: None,
            sequence_candidate: None,
            set_candidate: None,
            deal_points: 0,
            deal_wons: 0,
            ..self
        }
    }

    /// What holds of a player throughout a game: no more than 32 cards in
    /// the hand or in a candidate, and points within what a deal can have
    /// brought by the phase it is in.
    pub open spec fn sound(self, step: Step) -> bool {
        &&& self.hand.len() <= 32
        &&& forall|family: CombinationType|
            (#[trigger] self.candidate(family)) matches Some(c) ==> c.cards.len() <= 32
        &&& self.deal_points <= 2000 * (step.ord() + 1)
    }
}

/// A player who has just sat down.
pub open spec fn newcomer(name: Seq<char>) -> PlayerView {
    PlayerView {
        hand: Seq::empty(),
        is_elder: false,
        left_until_carte_rouge: Seq::empty(),
        card_played: None,
        point_candidate: None,
        sequence_candidate: None,
        set_candidate: None,
        deal_points: 0,
        deal_wons: 0,
        game_points: 0,
        points: 0,
        name,
    }
}

impl View for Player {
    type V = PlayerView;

    closed spec fn view(&self) -> PlayerView {
        PlayerView {
            hand: self.hand@,
            is_elder: self.is_elder,
            left_until_carte_rouge: self.left_until_carte_rouge@,
            card_played: self.card_played,
            point_candidate: seen(self.point_candidate),
            sequence_candidate: seen(self.sequence_candidate),
            set_candidate: seen(self.set_candidate),
            deal_points: self.deal_points as nat,
            deal_wons: self.deal_wons as nat,
            game_points: self.game_points as nat,
            points: self.points as nat,
            name: self.name@,
        }
    }
}

impl Player {
    pub fn new(name: String) -> (player: Self)
        ensures
            player@ == newcomer(name@),
    {
        Player {
            hand: Hand::empty_hand(),
            is_elder: false,
            left_until_carte_rouge: Hand::empty_hand(),
            card_played: None,
            point_candidate: None,
            sequence_candidate: None,
            set_candidate: None,
            deal_points: 0,
            deal_wons: 0,
            game_points: 0,
            points: 0,
            name,
        }
    }

    /// The player as text: the name, the points of the deal, how many
    /// cards are left until a carte rouge, and the hand.
    pub fn to_text(&self) -> (s: String)
        ensures
            s@ == self@.name + " : "@ + decimal(self@.deal_points) + " rougeLeft="@ + decimal(
                self@.left_until_carte_rouge.len(),
            ) + " : "@ + hand_sign(self@.hand),
    {
        let points = decimal_text(self.deal_points as u128);
        let left = decimal_text(self.left_until_carte_rouge.len() as u128);
        let hand = self.hand.to_text();
        self.name.clone().concat(" : ").concat(points.as_str()).concat(" rougeLeft=").concat(
            left.as_str(),
        ).concat(" : ").concat(hand.as_str())
    }

    /// The cards held.
    pub fn hand(&self) -> (hand: &Hand)
        ensures
            hand@ == self@.hand,
    {
        &self.hand
    }

    /// Whether the player is the elder of the deal.
    pub fn is_elder(&self) -> (elder: bool)
        ensures
            elder == self@.is_elder,
    {
        self.is_elder
    }

    /// The cards that have not yet counted towards a carte rouge.
    pub fn left_until_carte_rouge(&self) -> (left: &Hand)
        ensures
            left@ == self@.left_until_carte_rouge,
    {
        &self.left_until_carte_rouge
    }

    /// The card played last.
    pub fn card_played(&self) -> (card: Option<Card>)
        ensures
            card == self@.card_played,
    {
        self.card_played
    }

    /// The points made in this deal.
    pub fn deal_points(&self) -> (points: u32)
        ensures
            points == self@.deal_points,
    {
        self.deal_points
    }

    /// The tricks won in this deal.
    pub fn deal_wons(&self) -> (tricks: u32)
        ensures
            tricks == self@.deal_wons,
    {
        self.deal_wons
    }

    /// The points of the game so far.
    pub fn game_points(&self) -> (points: u32)
        ensures
            points == self@.game_points,
    {
        self.game_points
    }

    pub fn points(&self) -> (points: u32)
        ensures
            points == self@.points,
    {
        self.points
    }

    pub fn name(&self) -> (name: &String)
        ensures
            name@ == self@.name,
    {
        &self.name
    }

    /// The role in the deal.
    pub fn role(&self) -> (role: Role)
        ensures
            role == self@.role(),
    {
        if self.is_elder {
            Role::Elder
        } else {
            Role::Younger
        }
    }

    /// The best combination of a family that the player has.
    pub fn candidate(&self, family: CombinationType) -> (choice: &Option<Combination>)
        ensures
            seen(*choice) == self@.candidate(family),
    {
        match family {
            CombinationType::Point => &self.point_candidate,
            CombinationType::Sequence => &self.sequence_candidate,
            CombinationType::RankSet => &self.set_candidate,
        }
    }

    fn credit(&mut self, points: u32)
        requires
            old(self)@.deal_points + points <= u32::MAX,
        ensures
            final(self)@ == old(self)@.credited(points as nat),
    {
        self.deal_points = self.deal_points + points;
    }

    fn pick_up(&mut self, hand: Hand)
        requires
            hand@.len() <= 32,
        ensures
            final(self)@ == old(self)@.holding(hand@),
            forall|family: CombinationType|
                (#[trigger] final(self)@.candidate(family)) matches Some(c) ==> c.cards.len()
                    <= 32,
    {
        let points = get_combinations(&CombinationType::Point, &hand);
        let sequences = get_combinations(&CombinationType::Sequence, &hand);
        let sets = get_combinations(&CombinationType::RankSet, &hand);
        proof {
            lemma_candidate_bounded(CombinationType::Point, hand@);
            lemma_candidate_bounded(CombinationType::Sequence, hand@);
            lemma_candidate_bounded(CombinationType::RankSet, hand@);
        }
        self.point_candidate = best_combination(&points);
        self.sequence_candidate = best_combination(&sequences);
        self.set_candidate = best_combination(&sets);
        self.left_until_carte_rouge = hand.clone();
        self.hand = hand;
    }

    fn play(&mut self, card: Card)
        ensures
            final(self)@ == old(self)@.having_played(card),
            final(self)@.hand.len() <= old(self)@.hand.len(),
    {
        self.hand.take_card(&card);
        self.card_played = Some(card);
    }

    fn receive(&mut self, hand: Hand)
        ensures
            final(self)@ == old(self)@.dealt(hand@),
    {
        self.left_until_carte_rouge = hand.clone();
        self.hand = hand;
        self.point_candidate = None;
        self.sequence_candidate = None;
        self.set_candidate = None;
        self.deal_points = 0;
        self.deal_wons = 0;
    }
}

/// What a move from the player whose turn it is comes to: it is accepted
/// where nothing is wrong with it, and refused for what is wrong with it
/// with the game left as it was.
pub open spec fn handled(
    before: GameView,
    after: GameView,
    who: PlayerId,
    mv: PlayerMove,
    done: Result<(), PiquetError>,
) -> bool {
    match done {
        Ok(()) => fault(before, before.player(who), mv) is None && after == accepted(
            before,
            who,
            mv,
        ),
        Err(e) => fault(before, before.player(who), mv) == Some(e) && after == before,
    }
}

/// In a sound game no card is in two places at once: a card is at most
/// once in play, so no hand and no talon holds a card twice, and no card is
/// in both hands, or in a hand and in the talon.
pub proof fn lemma_no_card_twice(v: GameView, card: Card)
    requires
        v.sound(),
    ensures
        v.in_play().count(card) <= 1,
        v.player1.hand.no_duplicates(),
        v.player2.hand.no_duplicates(),
        v.visible.no_duplicates(),
        !(v.player1.hand.contains(card) && v.player2.hand.contains(card)),
        !(v.player1.hand.contains(card) && v.visible.contains(card)),
        !(v.player2.hand.contains(card) && v.visible.contains(card)),
{
    broadcast use vstd::multiset::group_multiset_axioms;
    broadcast use group_to_multiset_ensures;

    lemma_full_deck();
    full_deck().lemma_multiset_has_no_duplicates();
    assert forall|c: Card| #[trigger] v.in_play().count(c) <= 1 by {
        assert(v.in_play().count(c) <= v.deck.to_multiset().count(c));
        assert(full_deck().to_multiset().count(c) <= 1);
    }
    assert forall|c: Card| v.player1.hand.to_multiset().contains(c) implies v.player1.hand.to_multiset().count(c)
        == 1 by {
        assert(v.in_play().count(c) <= 1);
    }
    assert forall|c: Card| v.player2.hand.to_multiset().contains(c) implies v.player2.hand.to_multiset().count(c)
        == 1 by {
        assert(v.in_play().count(c) <= 1);
    }
    assert forall|c: Card| v.visible.to_multiset().contains(c) implies v.visible.to_multiset().count(c)
        == 1 by {
        assert(v.in_play().count(c) <= 1);
    }
    v.player1.hand.lemma_multiset_has_no_duplicates_conv();
    v.player2.hand.lemma_multiset_has_no_duplicates_conv();
    v.visible.lemma_multiset_has_no_duplicates_conv();
    assert(v.in_play().count(card) <= 1);
}

/// With the hands and the talon empty there is no card in play.
proof fn lemma_nothing_in_play(deck: Seq<Card>)
    ensures
        opening(deck).in_play().subset_of(deck.to_multiset()),
{
    broadcast use vstd::multiset::group_multiset_axioms;
    broadcast use group_to_multiset_ensures;

    assert(Seq::<Card>::empty().to_multiset().len() == 0);
    assert forall|card: Card| opening(deck).in_play().count(card) <= deck.to_multiset().count(
        card,
    ) by {
        assert(Seq::<Card>::empty().to_multiset().count(card) == 0);
    }
}

/// When the cards are dealt, the cards in play are the cards of the pack.
proof fn lemma_all_in_play(v: GameView)
    requires
        v.deck.len() == 32,
    ensures
        dealt(v).in_play() == v.deck.to_multiset(),
{
    broadcast use vstd::multiset::group_multiset_axioms;

    let first = v.deck.subrange(0, 12);
    let second = v.deck.subrange(12, 24);
    let talon = v.deck.subrange(24, 32);
    lemma_multiset_commutative(first, second);
    lemma_multiset_commutative(first + second, talon);
    assert(first + second + talon =~= v.deck);
    assert(dealt(v).in_play() =~= v.deck.to_multiset());
}

/// A game in which no card has moved has the same cards in play.
proof fn lemma_cards_stay(before: GameView, after: GameView)
    requires
        after.player1.hand == before.player1.hand,
        after.player2.hand == before.player2.hand,
        after.visible == before.visible,
        after.deck == before.deck,
        before.in_play().subset_of(before.deck.to_multiset()),
    ensures
        after.in_play().subset_of(after.deck.to_multiset()),
{
}

/// A player who takes a card out of the hand, or keeps some cards and
/// draws off the talon, brings no card into play that was not in play.
proof fn lemma_cards_move(before: GameView, after: GameView, who: PlayerId)
    requires
        after.deck == before.deck,
        after.player(opposite(who)).hand == before.player(opposite(who)).hand,
        before.in_play().subset_of(before.deck.to_multiset()),
        forall|card: Card|
            after.player(who).hand.to_multiset().count(card) + after.visible.to_multiset().count(
                card,
            ) <= before.player(who).hand.to_multiset().count(card)
                + before.visible.to_multiset().count(card),
    ensures
        after.in_play().subset_of(after.deck.to_multiset()),
{
    broadcast use vstd::multiset::group_multiset_axioms;

    assert forall|card: Card| after.in_play().count(card) <= after.deck.to_multiset().count(
        card,
    ) by {
        assert(before.in_play().count(card) <= before.deck.to_multiset().count(card));
        assert(after.player(who).hand.to_multiset().count(card)
            + after.visible.to_multiset().count(card) <= before.player(
            who,
        ).hand.to_multiset().count(card) + before.visible.to_multiset().count(card));
    }
}

/// Cards kept from a hand, with cards off the top of the talon, and what
/// is left of the talon, are cards of the hand and the talon.
proof fn lemma_exchange_counts(hand: Seq<Card>, kept: Seq<Card>, talon: Seq<Card>, n: int)
    requires
        kept.to_multiset().subset_of(hand.to_multiset()),
        0 <= n <= talon.len(),
    ensures
        forall|card: Card|
            (kept + talon.take(n)).to_multiset().count(card) + talon.skip(n).to_multiset().count(
                card,
            ) <= hand.to_multiset().count(card) + talon.to_multiset().count(card),
{
    broadcast use vstd::multiset::group_multiset_axioms;

    lemma_multiset_commutative(kept, talon.take(n));
    lemma_multiset_commutative(talon.take(n), talon.skip(n));
    assert(talon.take(n) + talon.skip(n) =~= talon);
    assert forall|card: Card|
        (kept + talon.take(n)).to_multiset().count(card) + talon.skip(n).to_multiset().count(card)
            <= hand.to_multiset().count(card) + talon.to_multiset().count(card) by {
        assert(kept.to_multiset().count(card) <= hand.to_multiset().count(card));
    }
}

/// A hand with a card taken out holds no card more often than before.
proof fn lemma_without_counts(hand: Seq<Card>, played: Card)
    ensures
        forall|card: Card|
            without(hand, played).to_multiset().count(card) <= hand.to_multiset().count(card),
    decreases hand.len(),
{
    broadcast use vstd::multiset::group_multiset_axioms;

    if hand.len() == 0 {
    } else if hand[0] == played {
        lemma_multiset_commutative(seq![hand[0]], hand.drop_first());
        assert(seq![hand[0]] + hand.drop_first() =~= hand);
    } else {
        lemma_without_counts(hand.drop_first(), played);
        lemma_multiset_commutative(seq![hand[0]], hand.drop_first());
        lemma_multiset_commutative(seq![hand[0]], without(hand.drop_first(), played));
        assert(seq![hand[0]] + hand.drop_first() =~= hand);
    }
}

/// A player who keeps the candidates and stays within 32 cards and within
/// the points of the phase stays sound.
proof fn lemma_stays_sound(before: PlayerView, after: PlayerView, was: Step, now: Step)
    requires
        before.sound(was),
        after.point_candidate == before.point_candidate,
        after.sequence_candidate == before.sequence_candidate,
        after.set_candidate == before.set_candidate,
        after.hand.len() <= 32,
        after.deal_points <= 2000 * (now.ord() + 1),
    ensures
        after.sound(now),
{
    assert forall|family: CombinationType|
        (#[trigger] after.candidate(family)) is Some implies after.candidate(
        family,
    )->0.cards.len() <= 32 by {
        assert(after.candidate(family) == before.candidate(family));
    }
}

/// The best combination that a hand of at most 32 cards holds has at most 32 cards.
proof fn lemma_candidate_bounded(family: CombinationType, hand: Seq<Card>)
    requires
        hand.len() <= 32,
    ensures
        best(combinations(family, hand)) matches Some(c) ==> c.cards.len() <= 32,
{
    let row = combinations(family, hand);
    lemma_combinations_bounded(family, hand);
    lemma_best(row);
    match best(row) {
        Some(top) => {
            let i = choose|i: int| 0 <= i < row.len() && row[i] == top;
            assert(row[i].cards.len() <= hand.len());
        },
        None => {},
    }
}


// ----------- Game -----------
/// A game of piquet: the pack, the talon, the two players, the phase the
/// deal is in, and what has been played and won.
#[derive(Debug)]
pub struct Game {
    rng: XorShiftRng,
    deal_num: Deal,
    deal_moves: Vec<(Move, u32)>,
    deals: Vec<(Deal, Vec<(Move, u32)>)>,
    deck: Deck,
    visible: Deck,
    step: Step,
    player1: Player,
    player2: Player,
    is_elder_to_play: bool,
    point_winner: DeclarationWinner,
    point_combination: Option<Combination>,
    sequence_winner: DeclarationWinner,
    sequence_combination: Option<Combination>,
    set_winner: DeclarationWinner,
    set_combination: Option<Combination>,
}

/// A game as the contracts see one: all of it but the state of the
/// random source.
#[verifier::ext_equal]
pub struct GameView {
    /// Which deal of the game this is.
    pub deal_num: Deal,
    /// The moves accepted in this deal, each with the points it is worth.
    pub deal_moves: Seq<(Move, u32)>,
    /// The deals that are over, each with its moves.
    pub deals: Seq<(Deal, Seq<(Move, u32)>)>,
    /// The pack in the order in which it was shuffled.
    pub deck: Seq<Card>,
    /// The talon: what is left of the pack when the hands are dealt.
    pub visible: Seq<Card>,
    /// The phase of the deal.
    pub step: Step,
    pub player1: PlayerView,
    pub player2: PlayerView,
    /// Whether, in the play of the cards, it is for the elder to play.
    pub is_elder_to_play: bool,
    /// For each family, who has won it and with what.
    pub point_winner: DeclarationWinner,
    pub point_combination: Option<CombinationView>,
    pub sequence_winner: DeclarationWinner,
    pub sequence_combination: Option<CombinationView>,
    pub set_winner: DeclarationWinner,
    pub set_combination: Option<CombinationView>,
}

/// The other seat.
pub open spec fn opposite(who: PlayerId) -> PlayerId {
    match who {
        PlayerId::P1 => PlayerId::P2,
        PlayerId::P2 => PlayerId::P1,
    }
}

impl GameView {
    /// The player at a seat.
    pub open spec fn player(self, who: PlayerId) -> PlayerView {
        match who {
            PlayerId::P1 => self.player1,
            PlayerId::P2 => self.player2,
        }
    }

    /// With another player at a seat.
    pub open spec fn with_player(self, who: PlayerId, player: PlayerView) -> GameView {
        match who {
            PlayerId::P1 => GameView { player1: player, ..self },
            PlayerId::P2 => GameView { player2: player, ..self },
        }
    }

    /// The seat of a role. The elder sits at the first seat if the first
    /// player is the elder, and at the second if not; the younger at the other.
    pub open spec fn seat(self, role: Role) -> PlayerId {
        let elder = if self.player1.is_elder {
            PlayerId::P1
        } else {
            PlayerId::P2
        };
        match role {
            Role::Elder => elder,
            Role::Younger => opposite(elder),
        }
    }

    /// Who has won a family.
    pub open spec fn winner(self, family: CombinationType) -> DeclarationWinner {
        match family {
            CombinationType::Point => self.point_winner,
            CombinationType::Sequence => self.sequence_winner,
            CombinationType::RankSet => self.set_winner,
        }
    }

    /// With the outcome of a family put on record.
    pub open spec fn with_outcome(
        self,
        family: CombinationType,
        winner: DeclarationWinner,
        combination: Option<CombinationView>,
    ) -> GameView {
        match family {
            CombinationType::Point => GameView {
                point_winner: winner,
                point_combination: combination,
                ..self
            },
            CombinationType::Sequence => GameView {
                sequence_winner: winner,
                sequence_combination: combination,
                ..self
            },
            CombinationType::RankSet => GameView {
                set_winner: winner,
                set_combination: combination,
                ..self
            },
        }
    }

    /// The cards in play: those in the two hands and in the talon.
    pub open spec fn in_play(self) -> Multiset<Card> {
        self.player1.hand.to_multiset().add(self.player2.hand.to_multiset()).add(
            self.visible.to_multiset(),
        )
    }

    /// What holds of a game throughout: the pack is the 32 cards, in
    /// whatever order; the cards in play are cards of the pack, none of
    /// them more often than the pack has it, so that no card is in two
    /// places at once; and both players are sound.
    pub open spec fn sound(self) -> bool {
        &&& self.deck.to_multiset() == full_deck().to_multiset()
        &&& self.in_play().subset_of(self.deck.to_multiset())
        &&& self.player1.sound(self.step)
        &&& self.player2.sound(self.step)
    }
}

/// A game before anything has happened in it, with the pack as given.
pub open spec fn opening(deck: Seq<Card>) -> GameView {
    GameView {
        deal_num: Deal::One,
        deal_moves: Seq::empty(),
        deals: Seq::empty(),
        deck,
        visible: Seq::empty(),
        step: Step::Start,
        player1: newcomer("Roméo"@),
        player2: newcomer("Juliette"@),
        is_elder_to_play: true,
        point_winner: DeclarationWinner::Nobody,
        point_combination: None,
        sequence_winner: DeclarationWinner::Nobody,
        sequence_combination: None,
        set_winner: DeclarationWinner::Nobody,
        set_combination: None,
    }
}

/// The game with the roles given out: the first player is the elder if
/// `first_is_elder`, and the second if not.
pub open spec fn with_elder(v: GameView, first_is_elder: bool) -> GameView {
    GameView {
        player1: PlayerView { is_elder: first_is_elder, ..v.player1 },
        player2: PlayerView { is_elder: !first_is_elder, ..v.player2 },
        ..v
    }
}

/// The game with the cards dealt: twelve cards off the top of the pack to
/// the first player, the next twelve to the second, the last eight as the
/// talon. No move has been made yet, and the elder is to exchange.
pub open spec fn dealt(v: GameView) -> GameView {
    GameView {
        deal_moves: Seq::empty(),
        visible: v.deck.subrange(24, 32),
        step: Step::ExchangeElder,
        player1: v.player1.dealt(v.deck.subrange(0, 12)),
        player2: v.player2.dealt(v.deck.subrange(12, 24)),
        ..v
    }
}

/// The number of cards of a combination that may be missing.
pub open spec fn candidate_size(choice: Option<CombinationView>) -> nat {
    match choice {
        Some(c) => c.cards.len(),
        None => 0,
    }
}

/// Whether there is a combination and its highest card is of the rank.
pub open spec fn tops_out_at(choice: Option<CombinationView>, rank: Rank) -> bool {
    choice matches Some(c) && c.cards.len() > 0 && card_at(highest_key(c.cards)).rank == rank
}

/// What is wrong with a move that is made in the right phase by the player
/// whose turn it is; nothing where the move is accepted.
///
/// In an exchange the player may claim a carte blanche, before scoring
/// anything else and with a hand that is one, and then names the cards to
/// keep: they must be in the hand, and the talon must hold as many cards
/// as are given up. The elder declares in a family by the number of cards
/// of the best combination held, or by the rank of its highest card, and
/// either must be true of it. The younger answers for the family in
/// question. A card that is led or played must be in the hand. Every
/// other move is out of place.
pub open spec fn fault(v: GameView, mine: PlayerView, mv: PlayerMove) -> Option<PiquetError> {
    let out_of_place = Some(PiquetError::InvalidForStepError(v.step));
    match (v.step.business(), mv) {
        (Business::Exchange(_), PlayerMove::CarteBlanche) => if mine.deal_points != 0 {
            out_of_place
        } else if !carte_blanche(mine.hand) {
            Some(PiquetError::InvalidCombination)
        } else {
            None
        },
        (Business::Exchange(_), PlayerMove::Exchange(kept)) => if !kept@.to_multiset().subset_of(
            mine.hand.to_multiset(),
        ) {
            Some(PiquetError::CardNotInHand)
        } else if mine.hand.len() - kept@.len() > v.visible.len() {
            out_of_place
        } else {
            None
        },
        (Business::Declare(family), PlayerMove::DeclarationCount(declared, n)) => if declared
            != family {
            out_of_place
        } else if n != candidate_size(mine.candidate(family)) {
            Some(PiquetError::InvalidCombination)
        } else {
            None
        },
        (Business::Declare(family), PlayerMove::DeclarationUpper(declared, rank)) => if declared
            != family {
            out_of_place
        } else if !tops_out_at(mine.candidate(family), rank) {
            Some(PiquetError::InvalidCombination)
        } else {
            None
        },
        (Business::Respond(family), PlayerMove::PlayerResponse(answered, _)) => if answered
            != family {
            out_of_place
        } else {
            None
        },
        (Business::Lead, PlayerMove::PlayFirst(card)) => if !mine.hand.contains(card) {
            Some(PiquetError::CardNotInHand)
        } else {
            None
        },
        (Business::Play, PlayerMove::PlayCard(card)) => if !mine.hand.contains(card) {
            Some(PiquetError::CardNotInHand)
        } else {
            None
        },
        _ => out_of_place,
    }
}

/// Why a move is refused; nothing where it is accepted. A phase that waits
/// for no player takes no move. A move from the player whose turn it is
/// not is refused as such, whatever it is. A move from the player whose
/// turn it is is refused for what is wrong with it.
pub open spec fn refusal(v: GameView, who: PlayerId, mv: PlayerMove) -> Option<PiquetError> {
    match v.step.owner(v.is_elder_to_play) {
        None => Some(PiquetError::InvalidForStepError(v.step)),
        Some(role) => if v.player(who).role() != role {
            Some(PiquetError::NotYourTurnError)
        } else {
            fault(v, v.player(who), mv)
        },
    }
}

/// The game after a move that is accepted. The move is put down in the
/// moves of the deal with the points it is worth, and the points go to the
/// player. A claim of carte blanche leaves the phase as it is. An exchange
/// gives the player the cards kept and as many off the top of the talon as
/// were given up. A card led or played leaves the hand, and the turn passes
/// to the other player; the play is over when both hands are empty. In
/// every case but the claim and a play that leaves cards to be played, the
/// deal moves on to the next phase.
pub open spec fn accepted(v: GameView, who: PlayerId, mv: PlayerMove) -> GameView {
    let mine = v.player(who).credited(move_points(mv));
    let noted = GameView {
        deal_moves: v.deal_moves.push((tagged(who, mv), move_points(mv) as u32)),
        ..v
    };
    match mv {
        PlayerMove::CarteBlanche => noted.with_player(who, mine),
        PlayerMove::Exchange(kept) => {
            let given_up = mine.hand.len() - kept@.len();
            GameView {
                visible: v.visible.skip(given_up),
                step: v.step.following(),
                ..noted
            }.with_player(who, mine.holding(kept@ + v.visible.take(given_up)))
        },
        PlayerMove::PlayFirst(card) => GameView {
            step: v.step.following(),
            is_elder_to_play: false,
            ..noted
        }.with_player(who, mine.having_played(card)),
        PlayerMove::PlayCard(card) => GameView {
            step: if mine.having_played(card).hand.len() == 0 && v.player(
                opposite(who),
            ).hand.len() == 0 {
                v.step.following()
            } else {
                v.step
            },
            is_elder_to_play: !v.is_elder_to_play,
            ..noted
        }.with_player(who, mine.having_played(card)),
        _ => GameView { step: v.step.following(), ..noted }.with_player(who, mine),
    }
}

/// The game after a family has been settled for a role.
///
/// When it is settled for the elder, the best combinations of the two
/// players are weighed, and who wins the family, and with what, is put on
/// record. The elder, if the winner, puts down the points. When it is
/// settled for the younger, the younger puts down the points if the record
/// says that the family is the younger's. Then the deal moves on.
pub open spec fn settled(v: GameView, role: Role, family: CombinationType) -> GameView {
    let elder = v.player(v.seat(Role::Elder));
    let younger = v.player(v.seat(Role::Younger));
    let e = elder.candidate(family);
    let y = younger.candidate(family);
    let paid = match role {
        Role::Elder => {
            let recorded = v.with_outcome(family, winner_of(e, y), winning(e, y));
            if winner_of(e, y) == DeclarationWinner::Elder {
                recorded.with_player(
                    v.seat(Role::Elder),
                    elder.credited(award(e->0, y, elder.hand)),
                )
            } else {
                recorded
            }
        },
        Role::Younger => if v.winner(family) == DeclarationWinner::Younger && y is Some {
            v.with_player(v.seat(Role::Younger), younger.credited(award(y->0, e, younger.hand)))
        } else {
            v
        },
    };
    GameView { step: v.step.following(), ..paid }
}

/// The game after the step that the game takes of itself; none in a phase
/// that waits for a player, or when the deal is over. From the start the
/// game goes to the deal, and there the cards are dealt. A family is
/// settled. At the end of the play the deal goes on record with its moves.
pub open spec fn advanced(v: GameView) -> Option<GameView> {
    match v.step.business() {
        Business::Opening => if v.step == Step::Start {
            Some(GameView { step: Step::Deal, ..v })
        } else {
            Some(dealt(v))
        },
        Business::Settle(role, family) => Some(settled(v, role, family)),
        Business::Close => Some(
            GameView {
                deals: v.deals.push((v.deal_num, v.deal_moves)),
                deal_moves: Seq::empty(),
                step: Step::End,
                ..v
            },
        ),
        _ => None,
    }
}

impl View for Game {
    type V = GameView;

    closed spec fn view(&self) -> GameView {
        GameView {
            deal_num: self.deal_num,
            deal_moves: self.deal_moves@,
            deals: Seq::new(self.deals@.len(), |i: int| (self.deals@[i].0, self.deals@[i].1@)),
            deck: self.deck@,
            visible: self.visible@,
            step: self.step,
            player1: self.player1@,
            player2: self.player2@,
            is_elder_to_play: self.is_elder_to_play,
            point_winner: self.point_winner,
            point_combination: seen(self.point_combination),
            sequence_winner: self.sequence_winner,
            sequence_combination: seen(self.sequence_combination),
            set_winner: self.set_winner,
            set_combination: seen(self.set_combination),
        }
    }
}

impl Game {
    /// A new game: the pack is shuffled by a random source made from the
    /// seed, and nothing else has happened.
    pub fn new(seed: [u8; 16]) -> (game: Self)
        ensures
            game@ == opening(game@.deck),
            game@.deck.to_multiset() == full_deck().to_multiset(),
            game@.deck.len() == 32,
            game@.deck.no_duplicates(),
            game@.sound(),
    {
        let mut deck = Deck::new();
        let mut rng = seeded(seed);
        deck.shuffle(&mut rng);
        proof {
            lemma_permuted_deck(deck@);
            lemma_nothing_in_play(deck@);
        }
        Game {
            rng,
            deal_num: Deal::One,
            deal_moves: Vec::new(),
            deals: Vec::new(),
            deck,
            visible: Deck::empty_deck(),
            step: Step::Start,
            player1: Player::new(String::from_str("Roméo")),
            player2: Player::new(String::from_str("Juliette")),
            is_elder_to_play: true,
            point_winner: DeclarationWinner::Nobody,
            point_combination: None,
            sequence_winner: DeclarationWinner::Nobody,
            sequence_combination: None,
            set_winner: DeclarationWinner::Nobody,
            set_combination: None,
        }
    }

    /// Gives out the roles: the first player is the elder if
    /// `first_is_elder`, the second if not.
    pub fn assign_elder(&mut self, first_is_elder: bool)
        ensures
            final(self)@ == with_elder(old(self)@, first_is_elder),
            old(self)@.sound() ==> final(self)@.sound(),
    {
        self.player1.is_elder = first_is_elder;
        self.player2.is_elder = !first_is_elder;
        proof {
            if old(self)@.sound() {
                lemma_stays_sound(old(self)@.player1, self@.player1, self@.step, self@.step);
                lemma_stays_sound(old(self)@.player2, self@.player2, self@.step, self@.step);
            }
        }
    }

    /// Draws from the random source which of the players is the elder;
    /// the other is the younger.
    pub fn choose_elder(&mut self)
        ensures
            final(self)@ == with_elder(old(self)@, final(self)@.player1.is_elder),
            final(self)@.player1.is_elder != final(self)@.player2.is_elder,
            old(self)@.sound() ==> final(self)@.sound(),
    {
        let first_is_elder = coin(&mut self.rng);
        self.assign_elder(first_is_elder);
    }

    /// Deals the cards of the pack as it lies.
    pub fn deal(&mut self)
        requires
            old(self)@.sound(),
        ensures
            final(self)@ == dealt(old(self)@),
            final(self)@.sound(),
            final(self)@.player1.hand.len() == 12,
            final(self)@.player2.hand.len() == 12,
            final(self)@.visible.len() == 8,
            (final(self)@.player1.hand + final(self)@.player2.hand + final(self)@.visible)
                == final(self)@.deck,
    {
        proof {
            lemma_permuted_deck(self.deck@);
        }
        let mut pile = self.deck.clone();
        let first = pile.draw(12);
        let second = pile.draw(12);
        proof {
            assert(first@ =~= self.deck@.subrange(0, 12));
            assert(second@ =~= self.deck@.subrange(12, 24));
            assert(pile@ =~= self.deck@.subrange(24, 32));
            assert(first@ + second@ + pile@ =~= self.deck@);
        }
        self.visible = pile;
        self.player1.receive(Hand::new(first));
        self.player2.receive(Hand::new(second));
        self.deal_moves = Vec::new();
        self.step = Step::Deal.after();
        proof {
            lemma_all_in_play(old(self)@);
        }
    }

    /// The player at a seat.
    pub fn player(&self, who: PlayerId) -> (player: &Player)
        ensures
            player@ == self@.player(who),
    {
        match who {
            PlayerId::P1 => &self.player1,
            PlayerId::P2 => &self.player2,
        }
    }

    fn credit(&mut self, who: PlayerId, points: u32)
        requires
            old(self)@.player(who).deal_points + points <= u32::MAX,
        ensures
            final(self)@ == old(self)@.with_player(
                who,
                old(self)@.player(who).credited(points as nat),
            ),
    {
        match who {
            PlayerId::P1 => self.player1.credit(points),
            PlayerId::P2 => self.player2.credit(points),
        }
    }

    fn note(&mut self, who: PlayerId, mv: PlayerMove, points: u32)
        ensures
            final(self)@ == (GameView {
                deal_moves: old(self)@.deal_moves.push((tagged(who, mv), points)),
                ..old(self)@
            }),
    {
        let entry = match who {
            PlayerId::P1 => Move::P1Move(mv),
            PlayerId::P2 => Move::P2Move(mv),
        };
        self.deal_moves.push((entry, points));
    }

    fn record(
        &mut self,
        family: CombinationType,
        winner: DeclarationWinner,
        combination: Option<Combination>,
    )
        ensures
            final(self)@ == old(self)@.with_outcome(family, winner, seen(combination)),
    {
        match family {
            CombinationType::Point => {
                self.point_winner = winner;
                self.point_combination = combination;
            },
            CombinationType::Sequence => {
                self.sequence_winner = winner;
                self.sequence_combination = combination;
            },
            CombinationType::RankSet => {
                self.set_winner = winner;
                self.set_combination = combination;
            },
        }
    }

    fn pick_up(&mut self, who: PlayerId, hand: Hand)
        requires
            hand@.len() <= 32,
        ensures
            final(self)@ == old(self)@.with_player(who, old(self)@.player(who).holding(hand@)),
            forall|family: CombinationType|
                (#[trigger] final(self)@.player(who).candidate(family)) matches Some(c)
                    ==> c.cards.len() <= 32,
    {
        match who {
            PlayerId::P1 => self.player1.pick_up(hand),
            PlayerId::P2 => self.player2.pick_up(hand),
        }
    }

    fn play(&mut self, who: PlayerId, card: Card)
        ensures
            final(self)@ == old(self)@.with_player(
                who,
                old(self)@.player(who).having_played(card),
            ),
            final(self)@.player(who).hand.len() <= old(self)@.player(who).hand.len(),
    {
        match who {
            PlayerId::P1 => self.player1.play(card),
            PlayerId::P2 => self.player2.play(card),
        }
    }

    /// Settles a family for a role, in the phase that is for it.
    #[verifier::rlimit(40)]
    fn settle(&mut self, role: Role, family: CombinationType)
        requires
            old(self)@.sound(),
            old(self)@.step.business() == Business::Settle(role, family),
        ensures
            final(self)@ == settled(old(self)@, role, family),
            final(self)@.sound(),
    {
        let elder_seat = if self.player1.is_elder {
            PlayerId::P1
        } else {
            PlayerId::P2
        };
        let younger_seat = match elder_seat {
            PlayerId::P1 => PlayerId::P2,
            PlayerId::P2 => PlayerId::P1,
        };
        let elder = self.player(elder_seat);
        let younger = self.player(younger_seat);
        proof {
            assert(elder@.candidate(family) matches Some(c) ==> c.cards.len() <= 32);
            assert(younger@.candidate(family) matches Some(c) ==> c.cards.len() <= 32);
        }
        match role {
            Role::Elder => {
                let winner = declaration_winner(elder.candidate(family), younger.candidate(family));
                let mut points: u32 = 0;
                let combination = match winner {
                    DeclarationWinner::Elder => {
                        match elder.candidate(family) {
                            Some(best) => {
                                points =
                                declaration_award(best, younger.candidate(family), &elder.hand);
                            },
                            None => {},
                        }
                        copy_choice(elder.candidate(family))
                    },
                    DeclarationWinner::Younger => copy_choice(younger.candidate(family)),
                    _ => None,
                };
                self.record(family, winner, combination);
                if winner == DeclarationWinner::Elder {
                    self.credit(elder_seat, points);
                }
            },
            Role::Younger => {
                let mut points: Option<u32> = None;
                if self.winner(family) == DeclarationWinner::Younger {
                    match younger.candidate(family) {
                        Some(best) => {
                            points = Some(
                                declaration_award(best, elder.candidate(family), &younger.hand),
                            );
                        },
                        None => {},
                    }
                }
                match points {
                    Some(points) => {
                        self.credit(younger_seat, points);
                    },
                    None => {},
                }
            },
        }
        self.step = self.step.after();
        proof {
            assert(self@ =~= settled(old(self)@, role, family));
            lemma_stays_sound(old(self)@.player1, self@.player1, old(self)@.step, self@.step);
            lemma_stays_sound(old(self)@.player2, self@.player2, old(self)@.step, self@.step);
        }
    }

    /// Takes the step that the game takes of itself: from the start to the
    /// deal, the deal of the cards, the settling of a family, the record
    /// of a deal that is played out. In a phase that waits for a player,
    /// and when the deal is over, nothing is done and the phase is named
    /// in the error.
    pub fn advance(&mut self) -> (done: Result<(), PiquetError>)
        requires
            old(self)@.sound(),
        ensures
            final(self)@.sound(),
            done is Err ==> *final(self) == *old(self),
            match done {
                Ok(()) => advanced(old(self)@) == Some(final(self)@),
                Err(e) => {
                    &&& advanced(old(self)@) is None
                    &&& e == PiquetError::InvalidForStepError(old(self)@.step)
                    &&& final(self)@ == old(self)@
                },
            },
    {
        let step = self.step;
        match step.purpose() {
            Business::Opening => {
                if step == Step::Start {
                    self.step = Step::Deal;
                    proof {
                        lemma_stays_sound(
                            old(self)@.player1,
                            self@.player1,
                            Step::Start,
                            Step::Deal,
                        );
                        lemma_stays_sound(
                            old(self)@.player2,
                            self@.player2,
                            Step::Start,
                            Step::Deal,
                        );
                    }
                } else {
                    self.deal();
                }
                Ok(())
            },
            Business::Settle(role, family) => {
                self.settle(role, family);
                Ok(())
            },
            Business::Close => {
                let ghost before = self@;
                let mut moves: Vec<(Move, u32)> = Vec::new();
                std::mem::swap(&mut self.deal_moves, &mut moves);
                self.deals.push((self.deal_num, moves));
                self.step = Step::End;
                proof {
                    assert(self@.deals =~= before.deals.push((before.deal_num, before.deal_moves)));
                    assert(self@ =~= advanced(before)->0);
                    lemma_stays_sound(before.player1, self@.player1, before.step, self@.step);
                    lemma_stays_sound(before.player2, self@.player2, before.step, self@.step);
                }
                Ok(())
            },
            _ => Err(PiquetError::InvalidForStepError(step)),
        }
    }

    /// A claim of carte blanche from the player whose turn it is.
    fn claim_carte_blanche(&mut self, who: PlayerId) -> (done: Result<(), PiquetError>)
        requires
            old(self)@.sound(),
        ensures
            final(self)@.sound(),
            done is Err ==> *final(self) == *old(self),
            handled(old(self)@, final(self)@, who, PlayerMove::CarteBlanche, done),
    {
        let step = self.step;
        let ghost before = self@;
        match step.purpose() {
            Business::Exchange(_) => {},
            _ => {
                return Err(PiquetError::InvalidForStepError(step));
            },
        }
        if self.player(who).deal_points != 0 {
            return Err(PiquetError::InvalidForStepError(step));
        }
        if !is_carte_blanche(self.player(who).hand.clone()) {
            return Err(PiquetError::InvalidCombination);
        }
        self.note(who, PlayerMove::CarteBlanche, 10);
        self.credit(who, 10);
        proof {
            assert(self@ =~= accepted(before, who, PlayerMove::CarteBlanche));
            lemma_stays_sound(before.player1, self@.player1, before.step, self@.step);
            lemma_stays_sound(before.player2, self@.player2, before.step, self@.step);
            lemma_cards_stay(before, self@);
        }
        Ok(())
    }

    /// An exchange from the player whose turn it is.
    #[verifier::rlimit(40)]
    fn exchange(&mut self, who: PlayerId, kept: Hand) -> (done: Result<(), PiquetError>)
        requires
            old(self)@.sound(),
        ensures
            final(self)@.sound(),
            done is Err ==> *final(self) == *old(self),
            handled(old(self)@, final(self)@, who, PlayerMove::Exchange(kept), done),
    {
        let step = self.step;
        let ghost before = self@;
        match step.purpose() {
            Business::Exchange(_) => {},
            _ => {
                return Err(PiquetError::InvalidForStepError(step));
            },
        }
        if !self.player(who).hand.holds_all(&kept) {
            return Err(PiquetError::CardNotInHand);
        }
        let given_up = self.player(who).hand.len() - kept.len();
        if given_up > self.visible.get_cards().len() {
            return Err(PiquetError::InvalidForStepError(step));
        }
        let mut drawn = self.visible.draw(given_up);
        let mut cards = kept.clone().cards();
        cards.append(&mut drawn);
        self.note(who, PlayerMove::Exchange(kept), 0);
        self.pick_up(who, Hand::new(cards));
        self.step = step.after();
        proof {
            assert(self@ =~= accepted(before, who, PlayerMove::Exchange(kept)));
            lemma_exchange_counts(
                before.player(who).hand,
                kept@,
                before.visible,
                given_up as int,
            );
            lemma_cards_move(before, self@, who);
            match who {
                PlayerId::P1 => {
                    lemma_stays_sound(before.player2, self@.player2, before.step, self@.step);
                },
                PlayerId::P2 => {
                    lemma_stays_sound(before.player1, self@.player1, before.step, self@.step);
                },
            }
        }
        Ok(())
    }

    /// A declaration by the number of cards, from the player whose turn it is.
    fn declare_count(&mut self, who: PlayerId, declared: CombinationType, n: u32) -> (done: Result<
        (),
        PiquetError,
    >)
        requires
            old(self)@.sound(),
        ensures
            final(self)@.sound(),
            done is Err ==> *final(self) == *old(self),
            handled(
                old(self)@,
                final(self)@,
                who,
                PlayerMove::DeclarationCount(declared, n),
                done,
            ),
    {
        let step = self.step;
        let ghost before = self@;
        let family = match step.purpose() {
            Business::Declare(family) => family,
            _ => {
                return Err(PiquetError::InvalidForStepError(step));
            },
        };
        if declared != family {
            return Err(PiquetError::InvalidForStepError(step));
        }
        let size = match self.player(who).candidate(family) {
            Some(best) => best.hand().len(),
            None => 0,
        };
        if n as usize != size {
            return Err(PiquetError::InvalidCombination);
        }
        self.note(who, PlayerMove::DeclarationCount(declared, n), 0);
        self.step = step.after();
        proof {
            assert(self@ =~= accepted(before, who, PlayerMove::DeclarationCount(declared, n)));
            lemma_stays_sound(before.player1, self@.player1, before.step, self@.step);
            lemma_stays_sound(before.player2, self@.player2, before.step, self@.step);
            lemma_cards_stay(before, self@);
        }
        Ok(())
    }

    /// A declaration by the highest card, from the player whose turn it is.
    fn declare_upper(&mut self, who: PlayerId, declared: CombinationType, rank: Rank) -> (done:
        Result<(), PiquetError>)
        requires
            old(self)@.sound(),
        ensures
            final(self)@.sound(),
            done is Err ==> *final(self) == *old(self),
            handled(
                old(self)@,
                final(self)@,
                who,
                PlayerMove::DeclarationUpper(declared, rank),
                done,
            ),
    {
        let step = self.step;
        let ghost before = self@;
        let family = match step.purpose() {
            Business::Declare(family) => family,
            _ => {
                return Err(PiquetError::InvalidForStepError(step));
            },
        };
        if declared != family {
            return Err(PiquetError::InvalidForStepError(step));
        }
        let true_of_it = match self.player(who).candidate(family) {
            Some(best) => match best.hand().max() {
                Some(card) => card.rank == rank,
                None => false,
            },
            None => false,
        };
        if !true_of_it {
            return Err(PiquetError::InvalidCombination);
        }
        self.note(who, PlayerMove::DeclarationUpper(declared, rank), 0);
        self.step = step.after();
        proof {
            assert(self@ =~= accepted(before, who, PlayerMove::DeclarationUpper(declared, rank)));
            lemma_stays_sound(before.player1, self@.player1, before.step, self@.step);
            lemma_stays_sound(before.player2, self@.player2, before.step, self@.step);
            lemma_cards_stay(before, self@);
        }
        Ok(())
    }

    /// An answer to a declaration, from the player whose turn it is.
    fn respond(
        &mut self,
        who: PlayerId,
        answered: CombinationType,
        response: DeclarationResponse,
    ) -> (done: Result<(), PiquetError>)
        requires
            old(self)@.sound(),
        ensures
            final(self)@.sound(),
            done is Err ==> *final(self) == *old(self),
            handled(
                old(self)@,
                final(self)@,
                who,
                PlayerMove::PlayerResponse(answered, response),
                done,
            ),
    {
        let step = self.step;
        let ghost before = self@;
        let family = match step.purpose() {
            Business::Respond(family) => family,
            _ => {
                return Err(PiquetError::InvalidForStepError(step));
            },
        };
        if answered != family {
            return Err(PiquetError::InvalidForStepError(step));
        }
        self.note(who, PlayerMove::PlayerResponse(answered, response), 0);
        self.step = step.after();
        proof {
            assert(self@ =~= accepted(before, who, PlayerMove::PlayerResponse(answered, response)));
            lemma_stays_sound(before.player1, self@.player1, before.step, self@.step);
            lemma_stays_sound(before.player2, self@.player2, before.step, self@.step);
            lemma_cards_stay(before, self@);
        }
        Ok(())
    }

    /// The first card, led by the player whose turn it is.
    fn lead(&mut self, who: PlayerId, card: Card) -> (done: Result<(), PiquetError>)
        requires
            old(self)@.sound(),
        ensures
            final(self)@.sound(),
            done is Err ==> *final(self) == *old(self),
            handled(old(self)@, final(self)@, who, PlayerMove::PlayFirst(card), done),
    {
        let step = self.step;
        let ghost before = self@;
        match step.purpose() {
            Business::Lead => {},
            _ => {
                return Err(PiquetError::InvalidForStepError(step));
            },
        }
        if !self.player(who).hand.contains(&card) {
            return Err(PiquetError::CardNotInHand);
        }
        self.note(who, PlayerMove::PlayFirst(card), 1);
        self.credit(who, 1);
        self.play(who, card);
        self.is_elder_to_play = false;
        self.step = step.after();
        proof {
            assert(self@ =~= accepted(before, who, PlayerMove::PlayFirst(card)));
            lemma_stays_sound(before.player1, self@.player1, before.step, self@.step);
            lemma_stays_sound(before.player2, self@.player2, before.step, self@.step);
            lemma_without_counts(before.player(who).hand, card);
            lemma_cards_move(before, self@, who);
        }
        Ok(())
    }

    /// A card played by the player whose turn it is.
    fn play_card(&mut self, who: PlayerId, card: Card) -> (done: Result<(), PiquetError>)
        requires
            old(self)@.sound(),
        ensures
            final(self)@.sound(),
            done is Err ==> *final(self) == *old(self),
            handled(old(self)@, final(self)@, who, PlayerMove::PlayCard(card), done),
    {
        let step = self.step;
        let ghost before = self@;
        match step.purpose() {
            Business::Play => {},
            _ => {
                return Err(PiquetError::InvalidForStepError(step));
            },
        }
        if !self.player(who).hand.contains(&card) {
            return Err(PiquetError::CardNotInHand);
        }
        self.note(who, PlayerMove::PlayCard(card), 0);
        self.play(who, card);
        self.is_elder_to_play = !self.is_elder_to_play;
        if self.player1.hand.len() == 0 && self.player2.hand.len() == 0 {
            self.step = step.after();
        }
        proof {
            assert(self@ =~= accepted(before, who, PlayerMove::PlayCard(card)));
            lemma_stays_sound(before.player1, self@.player1, before.step, self@.step);
            lemma_stays_sound(before.player2, self@.player2, before.step, self@.step);
            lemma_without_counts(before.player(who).hand, card);
            lemma_cards_move(before, self@, who);
        }
        Ok(())
    }

    /// Takes a move from a player. A move that is refused leaves the game
    /// as it was, and the error says why it was refused. A move that is
    /// accepted is put down with its points, does what it does, and moves
    /// the deal on where the phase is done with it.
    pub fn apply_move(&mut self, who: PlayerId, mv: PlayerMove) -> (done: Result<(), PiquetError>)
        requires
            old(self)@.sound(),
        ensures
            final(self)@.sound(),
            done is Err ==> *final(self) == *old(self),
            match done {
                Ok(()) => refusal(old(self)@, who, mv) is None && final(self)@ == accepted(
                    old(self)@,
                    who,
                    mv,
                ),
                Err(e) => refusal(old(self)@, who, mv) == Some(e) && final(self)@ == old(self)@,
            },
    {
        let step = self.step;
        let role = match step.whose_turn(self.is_elder_to_play) {
            Some(role) => role,
            None => {
                return Err(PiquetError::InvalidForStepError(step));
            },
        };
        if self.player(who).role() != role {
            return Err(PiquetError::NotYourTurnError);
        }
        match mv {
            PlayerMove::CarteBlanche => self.claim_carte_blanche(who),
            PlayerMove::Exchange(kept) => self.exchange(who, kept),
            PlayerMove::DeclarationCount(declared, n) => self.declare_count(who, declared, n),
            PlayerMove::DeclarationUpper(declared, rank) => self.declare_upper(
                who,
                declared,
                rank,
            ),
            PlayerMove::PlayerResponse(answered, response) => self.respond(
                who,
                answered,
                response,
            ),
            PlayerMove::PlayFirst(card) => self.lead(who, card),
            PlayerMove::PlayCard(card) => self.play_card(who, card),
            _ => Err(PiquetError::InvalidForStepError(step)),
        }
    }

    /// The phase of the deal.
    pub fn step(&self) -> (step: Step)
        ensures
            step == self@.step,
    {
        self.step
    }

    /// Which deal of the game this is.
    pub fn deal_num(&self) -> (deal: Deal)
        ensures
            deal == self@.deal_num,
    {
        self.deal_num
    }

    /// The moves accepted in this deal, each with the points it is worth.
    pub fn deal_moves(&self) -> (moves: &Vec<(Move, u32)>)
        ensures
            moves@ == self@.deal_moves,
    {
        &self.deal_moves
    }

    /// The deals that are over, each with its moves.
    pub fn deals(&self) -> (deals: &Vec<(Deal, Vec<(Move, u32)>)>)
        ensures
            deals@.len() == self@.deals.len(),
            forall|i: int|
                0 <= i < deals@.len() ==> (#[trigger] deals@[i]).0 == self@.deals[i].0
                    && deals@[i].1@ == self@.deals[i].1,
    {
        &self.deals
    }

    /// The pack in the order in which it was shuffled.
    pub fn deck(&self) -> (deck: &Deck)
        ensures
            deck@ == self@.deck,
    {
        &self.deck
    }

    /// The talon.
    pub fn visible(&self) -> (talon: &Deck)
        ensures
            talon@ == self@.visible,
    {
        &self.visible
    }

    pub fn player1(&self) -> (player: &Player)
        ensures
            player@ == self@.player1,
    {
        &self.player1
    }

    pub fn player2(&self) -> (player: &Player)
        ensures
            player@ == self@.player2,
    {
        &self.player2
    }

    /// Whether, in the play of the cards, it is for the elder to play.
    pub fn is_elder_to_play(&self) -> (elder: bool)
        ensures
            elder == self@.is_elder_to_play,
    {
        self.is_elder_to_play
    }

    /// The combination with which a family was won, by the record.
    pub fn winning_combination(&self, family: CombinationType) -> (combination: &Option<
        Combination,
    >)
        ensures
            seen(*combination) == match family {
                CombinationType::Point => self@.point_combination,
                CombinationType::Sequence => self@.sequence_combination,
                CombinationType::RankSet => self@.set_combination,
            },
    {
        match family {
            CombinationType::Point => &self.point_combination,
            CombinationType::Sequence => &self.sequence_combination,
            CombinationType::RankSet => &self.set_combination,
        }
    }

    /// Who has won a family, by the record.
    pub fn winner(&self, family: CombinationType) -> (winner: DeclarationWinner)
        ensures
            winner == self@.winner(family),
    {
        match family {
            CombinationType::Point => self.point_winner,
            CombinationType::Sequence => self.sequence_winner,
            CombinationType::RankSet => self.set_winner,
        }
    }
}

} // verus!
