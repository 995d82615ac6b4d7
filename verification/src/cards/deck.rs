use vstd::prelude::*;

use crate::cards::card::{Card, Rank, Suit};
use rand::seq::SliceRandom;
use rand::thread_rng;

verus! {

/// The full pack in canonical order: index `i` holds the card with packed key
/// `i` (see `Card::key`).
pub open spec fn full_deck_seq() -> Seq<Card> {
    Seq::new(
        52,
        |i: int|
            Card {
                rank: Rank::spec_from_value(2 + i % 13),
                suit: Suit::spec_from_order(i / 13),
            },
    )
}

/// The full pack recovers each card's packed key at its own index, so the
/// 52 cards are pairwise distinct and each occurs exactly once.
pub proof fn lemma_full_deck_distinct()
    ensures
        forall|i: int| 0 <= i < 52 ==> (#[trigger] full_deck_seq()[i]).key() == i,
        full_deck_seq().no_duplicates(),
        forall|c: Card| #[trigger] full_deck_seq().to_multiset().count(c) <= 1,
{
    broadcast use vstd::multiset::group_multiset_axioms;

    assert forall|i: int| 0 <= i < 52 implies (#[trigger] full_deck_seq()[i]).key() == i by {
        vstd::arithmetic::div_mod::lemma_fundamental_div_mod(i, 13);
        assert(0 <= i / 13 < 4);
        assert(0 <= i % 13 < 13);
    }
    assert forall|i: int, j: int|
        0 <= i < 52 && 0 <= j < 52 && i != j implies full_deck_seq()[i] != full_deck_seq()[j] by {
        assert(full_deck_seq()[i].key() == i && full_deck_seq()[j].key() == j);
    }
    full_deck_seq().lemma_multiset_has_no_duplicates();
    assert forall|c: Card| #[trigger] full_deck_seq().to_multiset().count(c) <= 1 by {
        if full_deck_seq().to_multiset().count(c) > 0 {
            assert(full_deck_seq().to_multiset().contains(c));
        }
    }
}

/// An owned stack of undealt cards. Cards are drawn from the top (the end of
/// the vector) and are never put back.
pub struct Deck {
    pub cards: Vec<Card>,
}

impl Deck {
    /// A fresh, unshuffled deck holding each of the 52 cards exactly once.
    pub fn new() -> (d: Deck)
        ensures
            d.cards@ == full_deck_seq(),
    {
        let mut cards: Vec<Card> = Vec::new();
        let suits = Suit::all_suits();
        let ranks = Rank::all_ranks();
        let mut si: usize = 0;
        while si < 4
            invariant
                suits@ == Suit::all_suits_seq(),
                ranks@ == Rank::all_ranks_seq(),
                si <= 4,
                cards@.len() == si * 13,
                forall|k: int| 0 <= k < cards@.len() ==> cards@[k] == full_deck_seq()[k],
            decreases 4 - si,
        {
            let mut ri: usize = 0;
            while ri < 13
                invariant
                    suits@ == Suit::all_suits_seq(),
                    ranks@ == Rank::all_ranks_seq(),
                    si < 4,
                    ri <= 13,
                    cards@.len() == si * 13 + ri,
                    forall|k: int| 0 <= k < cards@.len() ==> cards@[k] == full_deck_seq()[k],
                decreases 13 - ri,
            {
                let c = Card::new(ranks[ri], suits[si]);
                proof {
                    let idx = si * 13 + ri;
                    assert(idx / 13 == si && idx % 13 == ri) by (nonlinear_arith)
                        requires
                            0 <= si < 4,
                            0 <= ri < 13,
                            idx == si * 13 + ri,
                    ;
                    assert(Suit::all_suits_seq()[si as int] == Suit::spec_from_order(si as int));
                    assert(Rank::all_ranks_seq()[ri as int] == Rank::spec_from_value(2 + ri));
                    assert(c == full_deck_seq()[idx as int]);
                }
                cards.push(c);
                ri += 1;
            }
            si += 1;
        }
        Deck { cards }
    }

    /// Relies on rand's `SliceRandom::shuffle`, a Fisher-Yates shuffle that
    /// permutes the slice in place by swaps: the result holds exactly the
    /// same cards, rearranged.
    #[verifier::external_body]
    pub fn shuffle(self) -> (r: Self)
        ensures
            r.cards@.len() == self.cards@.len(),
            r.cards@.to_multiset() == self.cards@.to_multiset(),
    {
        let mut this = self;
        let mut rng = thread_rng();
        this.cards.shuffle(&mut rng);
        this
    }

    pub fn is_empty(&self) -> (r: bool)
        ensures
            r == (self.cards@.len() == 0),
    {
        self.cards.is_empty()
    }

    pub fn size(&self) -> (n: usize)
        ensures
            n == self.cards@.len(),
    {
        self.cards.len()
    }

    /// Draw the top card, if one is left.
    pub fn draw_card(&mut self) -> (c: Option<Card>)
        ensures
            old(self).cards@.len() > 0 ==> c == Some(old(self).cards@.last())
                && final(self).cards@ == old(self).cards@.drop_last(),
            old(self).cards@.len() == 0 ==> c is None && final(self).cards@ == old(self).cards@,
    {
        self.cards.pop()
    }

    /// Draw the `size` top cards (all remaining cards if fewer are left),
    /// in their deck order.
    pub fn draw_multiple_cards(&mut self, size: usize) -> (drawn: Vec<Card>)
        ensures
            ({
                let n = old(self).cards@.len() as int;
                let at = if size <= n { n - size } else { 0 };
                &&& final(self).cards@ == old(self).cards@.subrange(0, at)
                &&& drawn@ == old(self).cards@.subrange(at, n)
            }),
    {
        let index = self.cards.len().checked_sub(size).unwrap_or(0);
        self.cards.split_off(index)
    }
}

} // verus!
