//! Piquet for two players: the cards, the scoring combinations of a hand,
//! and the phases of a deal.

pub mod cards;
pub mod combinations;
pub mod game;
pub mod random;
