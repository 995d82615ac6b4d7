use vstd::prelude::*;

use crate::cards::card::{Card, Suit};
use crate::cards::hand::{has_suit, Hand};
use crate::game::player::Player;
use crate::game::trick::Trick;
use rand::thread_rng;
use rand::RngCore;

verus! {

/// A baseline opponent used to measure the rule-based strategy: it follows
/// suit with its strongest matching card, trumps when out of the led suit,
/// and otherwise picks a held card at random.
pub struct RandomPlayer;

/// Relies on rand's `RngCore::next_u32` on the thread-local generator: an
/// arbitrary 32-bit value, of which nothing is promised.
#[verifier::external_body]
fn random_u32() -> u32 {
    thread_rng().next_u32()
}

impl Player for RandomPlayer {
    fn name(&self) -> (r: String) {
        "Random".to_owned()
    }

    fn call_trump_suit(&mut self, _hand: &Hand) -> (s: Suit) {
        Suit::Hearts
    }

    /// Whatever the random draws, the answer is always a legal play: it is
    /// held, and it follows the led suit whenever the hand can.
    fn play(&self, hand: &Hand, trump_suit: Suit, trick: &Trick) -> (c: Card)
        ensures
            hand.cards@.contains(c),
            trick.slot_in_order(0) matches Some(f) ==> (has_suit(hand.cards@, f.suit) ==> c.suit
                == f.suit),
    {
        let first_card = match trick.first_card() {
            Some(card) => card,
            None => {
                // Leading: any held card will do.
                let r = random_u32() as usize % hand.cards.len();
                proof {
                    assert(hand.cards@.contains(hand.cards@[r as int]));
                }
                return hand.cards[r];
            },
        };
        // Follow suit with the strongest matching card, if any is held.
        match hand.highest_rank_card(first_card.suit()) {
            Some(card) => {
                return card;
            },
            None => {},
        }
        // Out of the led suit: prefer a random trump card.
        if hand.count_of_suit(trump_suit) > 0 {
            let candidates = hand.cards_of_suit(trump_suit);
            let r = random_u32() as usize % candidates.len();
            return candidates[r];
        }
        // Otherwise any held card is legal.
        let r = random_u32() as usize % hand.cards.len();
        proof {
            assert(hand.cards@.contains(hand.cards@[r as int]));
        }
        hand.cards[r]
    }

    fn trick_end(&mut self, _trick: &Trick) {
    }
}

} // verus!
