//! The pseudo-random source of a game: a seeded xorshift generator, and the
//! three things the game asks of it.
//!
//! Nothing in this file is proved. Each function hands its arguments to the
//! generator and states only what holds of every outcome.

use crate::cards::Card;
use rand::Rng;
use rand_core::SeedableRng;
use rand_xorshift::XorShiftRng;
use vstd::prelude::*;

verus! {

/// The generator's four words of state are hidden from the proofs.
#[verifier::external_type_specification]
#[verifier::external_body]
pub struct ExXorShiftRng(rand_xorshift::XorShiftRng);

/// `XorShiftRng::from_seed`: builds the generator from sixteen bytes. It
/// never fails; nothing is claimed of the state it starts in.
#[verifier::external_body]
pub(crate) fn seeded(seed: [u8; 16]) -> (rng: XorShiftRng) {
    XorShiftRng::from_seed(seed)
}

/// `Rng::shuffle`: permutes the slice in place by a run of swaps, so the
/// cards after the call are the cards before it, each as often as before.
/// Which permutation comes out is left open.
#[verifier::external_body]
#[allow(deprecated)]
pub(crate) fn shuffle_cards(rng: &mut XorShiftRng, cards: &mut Vec<Card>)
    ensures
        final(cards)@.to_multiset() == old(cards)@.to_multiset(),
        final(cards)@.len() == old(cards)@.len(),
{
    rng.shuffle(cards.as_mut_slice());
}

/// `Rng::gen` at type `bool`: one draw from the generator. Either value may
/// come back.
#[verifier::external_body]
pub(crate) fn coin(rng: &mut XorShiftRng) -> (heads: bool) {
    rng.gen()
}

} // verus!
