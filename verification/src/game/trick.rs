use vstd::prelude::*;

use crate::cards::card::{Card, Suit};
use crate::game::player::PlayerNumber;

verus! {

/// Does a candidate card overtake the provisional winner's card? It does iff
/// it trumps a non-trump winner, or follows the winner's suit with a strictly
/// higher rank. A card of any other suit never overtakes, whatever its rank.
pub open spec fn overtakes(cand: Card, win: Card, trump: Suit) -> bool {
    ||| (cand.suit != win.suit && cand.suit == trump)
    ||| (cand.suit == win.suit && cand.rank.value() > win.rank.value())
}

/// One round of play: four card slots indexed by seat, and the seat that led.
#[derive(Debug, Clone)]
pub struct Trick {
    pub played_cards: [Option<Card>; 4],
    pub first_player: PlayerNumber,
}

impl Trick {
    /// The slot of the seat `j` places after the leader.
    pub open spec fn slot_in_order(self, j: int) -> Option<Card> {
        self.played_cards@[(self.first_player.index_spec() + j) % 4]
    }

    /// How many of the four slots are filled.
    pub open spec fn filled_count(self) -> int {
        (if self.played_cards@[0] is Some {
            1int
        } else {
            0int
        }) + (if self.played_cards@[1] is Some {
            1int
        } else {
            0int
        }) + (if self.played_cards@[2] is Some {
            1int
        } else {
            0int
        }) + (if self.played_cards@[3] is Some {
            1int
        } else {
            0int
        })
    }

    /// The card played by the seat at zero-based index `i`.
    pub open spec fn card_at(self, i: int) -> Card
        recommends
            self.played_cards@[i] is Some,
    {
        self.played_cards@[i].unwrap()
    }

    /// Slots are filled in turn order starting from the leader: exactly the
    /// first `filled_count` seats after the leader have played.
    pub open spec fn played_prefix(self) -> bool {
        forall|j: int| 0 <= j < 4 ==> (#[trigger] self.slot_in_order(j) is Some <==> j
            < self.filled_count())
    }

    /// A trick a player may be asked to answer: filled as a prefix of the
    /// turn order, with at least one seat still to play.
    pub open spec fn in_progress(self) -> bool {
        self.played_prefix() && self.filled_count() < 4
    }

    /// The seat index left holding the trick after the left-to-right scan:
    /// the leader provisionally wins, and each later seat in turn order
    /// overtakes or not per `overtakes`.
    pub open spec fn winner_index(self, trump: Suit) -> int
        recommends
            self.filled_count() == 4,
    {
        let f = self.first_player.index_spec();
        let p1 = (f + 1) % 4;
        let p2 = (f + 2) % 4;
        let p3 = (f + 3) % 4;
        let w1 = if overtakes(self.card_at(p1), self.card_at(f), trump) {
            p1
        } else {
            f
        };
        let w2 = if overtakes(self.card_at(p2), self.card_at(w1), trump) {
            p2
        } else {
            w1
        };
        if overtakes(self.card_at(p3), self.card_at(w2), trump) {
            p3
        } else {
            w2
        }
    }

    /// The seat that wins the fully-played trick under `trump`.
    pub open spec fn winner_spec(self, trump: Suit) -> PlayerNumber
        recommends
            self.filled_count() == 4,
    {
        PlayerNumber::spec_from_index(self.winner_index(trump))
    }

    /// A fresh trick led by `first_player`, with all four slots empty.
    pub fn new(first_player: PlayerNumber) -> (t: Self)
        ensures
            t.first_player == first_player,
            forall|i: int| 0 <= i < 4 ==> t.played_cards@[i] is None,
            t.filled_count() == 0,
            t.played_prefix(),
    {
        Trick { played_cards: [None, None, None, None], first_player }
    }

    /// The leader's card, if the leader has already played.
    pub fn first_card(&self) -> (r: Option<Card>)
        ensures
            r == self.played_cards@[self.first_player.index_spec()],
            r == self.slot_in_order(0),
    {
        self.played_cards[self.first_player.as_index()]
    }

    /// The four slots reordered to start from the leader, so a player can
    /// read who played what, in what order, without knowing seat numbers.
    pub fn played_cards_in_order(&self) -> (r: [Option<Card>; 4])
        ensures
            forall|j: int| 0 <= j < 4 ==> r@[j] == self.slot_in_order(j),
    {
        let first = self.first_player.as_index();
        let r = [
            self.played_cards[first % 4],
            self.played_cards[(first + 1) % 4],
            self.played_cards[(first + 2) % 4],
            self.played_cards[(first + 3) % 4],
        ];
        r
    }

    pub fn have_all_played(&self) -> (r: bool)
        ensures
            r == (self.filled_count() == 4),
    {
        self.played_cards[0].is_some() && self.played_cards[1].is_some()
            && self.played_cards[2].is_some() && self.played_cards[3].is_some()
    }

    /// The winner of a fully-played trick: a left-to-right scan in turn order
    /// with one provisional winner. Returns nothing while any seat has yet to
    /// play. When every seat has played, the winner holds the highest-ranked
    /// trump if any trump was played, and otherwise the highest-ranked card
    /// of the suit that was led.
    pub fn winner(&self, trump_suit: Suit) -> (r: Option<PlayerNumber>)
        ensures
            r is Some <==> self.filled_count() == 4,
            self.filled_count() == 4 ==> r == Some(self.winner_spec(trump_suit)),
            self.filled_count() == 4 ==> ({
                let w = self.winner_index(trump_suit);
                let wc = self.card_at(w);
                let lead = self.card_at(self.first_player.index_spec());
                &&& 0 <= w < 4
                &&& self.played_cards@[w] is Some
                &&& if exists|j: int| 0 <= j < 4 && (#[trigger] self.card_at(j)).suit == trump_suit {
                    wc.suit == trump_suit && forall|j: int|
                        0 <= j < 4 && (#[trigger] self.card_at(j)).suit == trump_suit
                            ==> self.card_at(j).rank.value() <= wc.rank.value()
                } else {
                    wc.suit == lead.suit && forall|j: int|
                        0 <= j < 4 && (#[trigger] self.card_at(j)).suit == lead.suit
                            ==> self.card_at(j).rank.value() <= wc.rank.value()
                }
            }),
    {
        if !self.have_all_played() {
            return None;
        }
        let cards = [
            self.played_cards[0].unwrap(),
            self.played_cards[1].unwrap(),
            self.played_cards[2].unwrap(),
            self.played_cards[3].unwrap(),
        ];
        let first = self.first_player.as_index();
        let mut w: usize = first;
        let mut step: usize = 1;
        while step < 4
            invariant
                self.filled_count() == 4,
                first == self.first_player.index_spec(),
                forall|i: int| 0 <= i < 4 ==> cards@[i] == self.card_at(i),
                1 <= step <= 4,
                w < 4,
                w == self.scan_upto(trump_suit, step as int),
            decreases 4 - step,
        {
            let p = (first + step) % 4;
            let cp = cards[p];
            let cw = cards[w];
            let cand_overtakes = (cp.suit() != cw.suit() && cp.suit() == trump_suit) || (cp.suit()
                == cw.suit() && cp.rank().as_i32() > cw.rank().as_i32());
            if cand_overtakes {
                w = p;
            }
            step += 1;
        }
        proof {
            self.lemma_scan_winner(trump_suit);
        }
        Some(PlayerNumber::from_index(w))
    }

    /// The provisional winner's seat index after the first `k` comparisons of
    /// the scan.
    pub open spec fn scan_upto(self, trump: Suit, k: int) -> int
        recommends
            1 <= k <= 4,
        decreases k,
    {
        let f = self.first_player.index_spec();
        if k <= 1 {
            f
        } else {
            let prev = self.scan_upto(trump, k - 1);
            let p = (f + k - 1) % 4;
            if overtakes(self.card_at(p), self.card_at(prev), trump) {
                p
            } else {
                prev
            }
        }
    }

    /// After the full scan the provisional winner holds the best card: the
    /// highest trump if any trump was played, else the highest card of the
    /// led suit.
    proof fn lemma_scan_winner(self, trump: Suit)
        requires
            self.filled_count() == 4,
        ensures
            self.scan_upto(trump, 4) == self.winner_index(trump),
            ({
                let w = self.winner_index(trump);
                let wc = self.card_at(w);
                let lead = self.card_at(self.first_player.index_spec());
                &&& 0 <= w < 4
                &&& if exists|j: int| 0 <= j < 4 && (#[trigger] self.card_at(j)).suit == trump {
                    wc.suit == trump && forall|j: int|
                        0 <= j < 4 && (#[trigger] self.card_at(j)).suit == trump ==> self.card_at(
                            j,
                        ).rank.value() <= wc.rank.value()
                } else {
                    wc.suit == lead.suit && forall|j: int|
                        0 <= j < 4 && (#[trigger] self.card_at(j)).suit == lead.suit
                            ==> self.card_at(j).rank.value() <= wc.rank.value()
                }
            }),
    {
        let f = self.first_player.index_spec();
        let p1 = (f + 1) % 4;
        let p2 = (f + 2) % 4;
        let p3 = (f + 3) % 4;
        let w = self.winner_index(trump);
        let wc = self.card_at(w);
        let lead = self.card_at(f);
        reveal_with_fuel(Trick::scan_upto, 5);
        assert(self.scan_upto(trump, 1) == f);
        assert(self.scan_upto(trump, 4) == w);
        // The scan visits every seat once: f, p1, p2, p3 cover 0..4.
        assert(w == f || w == p1 || w == p2 || w == p3);
        if exists|j: int| 0 <= j < 4 && (#[trigger] self.card_at(j)).suit == trump {
            let jw = choose|j: int| 0 <= j < 4 && (#[trigger] self.card_at(j)).suit == trump;
            assert(jw == f || jw == p1 || jw == p2 || jw == p3);
            assert(wc.suit == trump);
            assert forall|j: int|
                0 <= j < 4 && (#[trigger] self.card_at(j)).suit == trump implies self.card_at(
                j,
            ).rank.value() <= wc.rank.value() by {
                assert(j == f || j == p1 || j == p2 || j == p3);
            }
        } else {
            assert(self.card_at(f).suit != trump);
            assert(wc.suit == lead.suit);
            assert forall|j: int|
                0 <= j < 4 && (#[trigger] self.card_at(j)).suit == lead.suit implies self.card_at(
                j,
            ).rank.value() <= wc.rank.value() by {
                assert(j == f || j == p1 || j == p2 || j == p3);
            }
        }
    }
}

} // verus!
