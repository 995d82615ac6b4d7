use vstd::prelude::*;

use crate::cards::card::{Card, Suit};
use crate::cards::hand::Hand;
use crate::game::trick::Trick;

verus! {

/// The decision capability the engine calls back into at defined points.
/// An implementation never touches the engine: it sees only the hand, trump
/// suit and trick values passed to it, and answers by value.
pub trait Player {
    /// Display identity. No behavioral contract.
    fn name(&self) -> String;

    /// Choose the trump suit, given read access to the trump-caller's own
    /// hand. Called once per game, for the trump-caller's seat only.
    fn call_trump_suit(&mut self, hand: &Hand) -> Suit;

    /// Choose one card to play, given the acting seat's hand, the fixed
    /// trump suit, and the trick so far. The engine validates the answer;
    /// an illegal answer is reported and changes nothing.
    fn play(&self, hand: &Hand, trump_suit: Suit, trick: &Trick) -> Card
        requires
            hand.cards@.len() > 0,
            trick.in_progress(),
    ;

    /// Notification that a trick was completed, sent to every seat after
    /// scoring, so a strategy can keep track of the cards already played.
    fn trick_end(&mut self, trick: &Trick)
        requires
            trick.filled_count() == 4,
    ;
}

/// One of the four seats, used both as a turn identity and (zero-based) as an
/// index.
#[derive(Clone, Copy, PartialEq, Eq, Structural, Debug)]
pub enum PlayerNumber {
    One,
    Two,
    Three,
    Four,
}

impl PlayerNumber {
    /// The zero-based index of this seat.
    pub open spec fn index_spec(self) -> int {
        match self {
            PlayerNumber::One => 0,
            PlayerNumber::Two => 1,
            PlayerNumber::Three => 2,
            PlayerNumber::Four => 3,
        }
    }

    /// Inverse of `index_spec` on 0..4.
    pub open spec fn spec_from_index(i: int) -> PlayerNumber {
        if i == 0 {
            PlayerNumber::One
        } else if i == 1 {
            PlayerNumber::Two
        } else if i == 2 {
            PlayerNumber::Three
        } else {
            PlayerNumber::Four
        }
    }

    /// The cyclic successor: One, Two, Three, Four, then One again.
    pub open spec fn next(self) -> PlayerNumber {
        match self {
            PlayerNumber::One => PlayerNumber::Two,
            PlayerNumber::Two => PlayerNumber::Three,
            PlayerNumber::Three => PlayerNumber::Four,
            PlayerNumber::Four => PlayerNumber::One,
        }
    }

    /// The seat `k` places after this one in cyclic turn order.
    pub open spec fn plus(self, k: int) -> PlayerNumber {
        PlayerNumber::spec_from_index((self.index_spec() + k) % 4)
    }

    /// Advance to the cyclic successor.
    pub fn increment(&mut self)
        ensures
            *final(self) == old(self).next(),
            final(self).index_spec() == (old(self).index_spec() + 1) % 4,
    {
        *self = match self {
            PlayerNumber::One => PlayerNumber::Two,
            PlayerNumber::Two => PlayerNumber::Three,
            PlayerNumber::Three => PlayerNumber::Four,
            PlayerNumber::Four => PlayerNumber::One,
        };
    }

    pub fn as_index(&self) -> (i: usize)
        ensures
            i == self.index_spec(),
    {
        match self {
            PlayerNumber::One => 0,
            PlayerNumber::Two => 1,
            PlayerNumber::Three => 2,
            PlayerNumber::Four => 3,
        }
    }

    pub fn from_index(idx: usize) -> (p: PlayerNumber)
        requires
            idx < 4,
        ensures
            p == Self::spec_from_index(idx as int),
            p.index_spec() == idx,
    {
        if idx == 0 {
            PlayerNumber::One
        } else if idx == 1 {
            PlayerNumber::Two
        } else if idx == 2 {
            PlayerNumber::Three
        } else {
            PlayerNumber::Four
        }
    }
}

/// `spec_from_index` inverts `index_spec` on 0..4.
pub proof fn lemma_player_index_roundtrip(i: int)
    requires
        0 <= i < 4,
    ensures
        PlayerNumber::spec_from_index(i).index_spec() == i,
{
}

pub proof fn lemma_plus_zero(p: PlayerNumber)
    ensures
        p.plus(0) == p,
{
}

/// Stepping to the next seat advances the offset from any base seat by one.
pub proof fn lemma_plus_next(p: PlayerNumber, k: int)
    requires
        0 <= k,
    ensures
        p.plus(k).next() == p.plus(k + 1),
{
    let i = p.index_spec();
    let m = (i + k) % 4;
    assert(0 <= m < 4);
    assert(PlayerNumber::spec_from_index(m).next() == PlayerNumber::spec_from_index((m + 1) % 4));
    assert((m + 1) % 4 == (i + k + 1) % 4);
}

/// The fixed pairing of seats: {One, Three} against {Two, Four}. Never
/// stored; always derived from seat identities.
#[derive(Clone, Copy, PartialEq, Eq, Structural, Debug)]
pub enum Team {
    PlayersOneAndThree,
    PlayersTwoAndFour,
}

} // verus!
