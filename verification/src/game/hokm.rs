use vstd::prelude::*;

use crate::cards::card::{Card, Suit};
use crate::cards::deck::{full_deck_seq, Deck};
use crate::cards::hand::{has_suit, sorted_by_key, Hand};
use crate::game::player::{Player, PlayerNumber, Team};
use crate::game::trick::Trick;
use vstd::multiset::Multiset;

verus! {

/// A team wins the game when its combined trick count reaches this.
pub const WIN_THRESHOLD: u32 = 7;

/// A card slot seen as a multiset: empty, or the one card in it.
pub open spec fn opt_card_ms(c: Option<Card>) -> Multiset<Card> {
    match c {
        Some(card) => Multiset::empty().insert(card),
        None => Multiset::empty(),
    }
}

/// May `card` be played from `hand` into the trick `t`? It must be held; the
/// leader may play anything; anyone else must follow the leader's suit when
/// they can.
pub open spec fn legal_choice(hand: Seq<Card>, t: Trick, card: Card) -> bool {
    &&& hand.contains(card)
    &&& match t.slot_in_order(0) {
        None => true,
        Some(f) => has_suit(hand, f.suit) ==> card.suit == f.suit,
    }
}

/// One seat's owned state: its hand, and the number of tricks it has won.
pub struct PlayerState {
    pub hand: Hand,
    pub score: u32,
}

impl PlayerState {
    pub fn new() -> (s: Self)
        ensures
            s.hand.cards@ == Seq::<Card>::empty(),
            s.score == 0,
    {
        PlayerState { hand: Hand::new(), score: 0 }
    }

    /// Add a freshly dealt batch of cards to the hand.
    pub fn deal_cards(&mut self, new_cards: Vec<Card>)
        ensures
            final(self).hand.cards@ == old(self).hand.cards@ + new_cards@,
            final(self).score == old(self).score,
    {
        self.hand.combine(Hand { cards: new_cards });
    }

    pub fn sort_hand(&mut self)
        ensures
            sorted_by_key(final(self).hand.cards@),
            final(self).hand.cards@.to_multiset() == old(self).hand.cards@.to_multiset(),
            final(self).hand.cards@.len() == old(self).hand.cards@.len(),
            final(self).score == old(self).score,
    {
        self.hand.sort();
    }

    pub fn hand(&self) -> (h: &Hand)
        ensures
            *h == self.hand,
    {
        &self.hand
    }

    pub fn score(&self) -> (s: u32)
        ensures
            s == self.score,
    {
        self.score
    }
}

/// What one `play` step did.
#[derive(Clone, Copy, Debug, PartialEq, Eq, Structural)]
pub enum GameEvent {
    DealtCards(PlayerNumber, usize),
    SetTrumpSuit(Suit),
    Scored(PlayerNumber),
    InvalidPlay(PlayerNumber, Card),
    PlayedCard(PlayerNumber, Card),
    Won(Team),
    SortedHands,
}

/// The phase of the game, advancing strictly in declaration order, except
/// that Finished is also re-derived from the scores whenever the phase is
/// queried.
#[derive(Clone, Copy, Debug, PartialEq, Eq, Structural)]
pub enum GameState {
    DealingInitialFiveCards,
    SettingTrumpSuit,
    DealingRestOfCards,
    SortHands,
    NormalPlay,
    Finished,
}

/// A weight for each phase, non-increasing along every transition, used by
/// the step measure.
pub open spec fn phase_weight(s: GameState) -> int {
    match s {
        GameState::DealingInitialFiveCards => 5,
        GameState::SettingTrumpSuit => 4,
        GameState::DealingRestOfCards => 3,
        GameState::SortHands => 2,
        GameState::NormalPlay => 1,
        GameState::Finished => 0,
    }
}

/// The whole game: deck, the four seats, trump bookkeeping, whose turn it
/// is, the current trick, and the phase. Mutated only through `play`.
pub struct Hokm {
    pub deck: Deck,
    pub player1: PlayerState,
    pub player2: PlayerState,
    pub player3: PlayerState,
    pub player4: PlayerState,
    pub trump_suit: Option<Suit>,
    pub trump_caller: PlayerNumber,
    pub turn: PlayerNumber,
    pub trick: Option<Trick>,
    pub game_state: GameState,
}

impl Hokm {
    /// The seat at zero-based index `j`.
    pub open spec fn seat(self, j: int) -> PlayerState {
        if j == 0 {
            self.player1
        } else if j == 1 {
            self.player2
        } else if j == 2 {
            self.player3
        } else {
            self.player4
        }
    }

    pub open spec fn hand_at(self, j: int) -> Seq<Card> {
        self.seat(j).hand.cards@
    }

    /// Cards currently held across all four hands.
    pub open spec fn hand_total(self) -> int {
        self.hand_at(0).len() + self.hand_at(1).len() + self.hand_at(2).len() + self.hand_at(3).len()
            as int
    }

    /// Tricks won so far, across all four seats.
    pub open spec fn score_total(self) -> int {
        self.seat(0).score + self.seat(1).score + self.seat(2).score + self.seat(3).score
    }

    /// (score of seats One and Three, score of seats Two and Four).
    pub open spec fn team_scores_spec(self) -> (int, int) {
        (
            self.seat(0).score + self.seat(2).score,
            self.seat(1).score + self.seat(3).score,
        )
    }

    /// The team whose combined score has reached the win threshold, if any.
    pub open spec fn winning_team(self) -> Option<Team> {
        if self.team_scores_spec().0 >= WIN_THRESHOLD {
            Some(Team::PlayersOneAndThree)
        } else if self.team_scores_spec().1 >= WIN_THRESHOLD {
            Some(Team::PlayersTwoAndFour)
        } else {
            None
        }
    }

    /// The reported phase: the stored one, overridden to Finished as soon as
    /// a team has won.
    pub open spec fn state_spec(self) -> GameState {
        if self.winning_team() is Some {
            GameState::Finished
        } else {
            self.game_state
        }
    }

    /// Cards lying in the current trick.
    pub open spec fn trick_cards(self) -> Multiset<Card> {
        match self.trick {
            Some(t) => opt_card_ms(t.played_cards@[0]).add(opt_card_ms(t.played_cards@[1])).add(
                opt_card_ms(t.played_cards@[2]),
            ).add(opt_card_ms(t.played_cards@[3])),
            None => Multiset::empty(),
        }
    }

    /// How many cards lie in the current trick.
    pub open spec fn trick_count(self) -> int {
        match self.trick {
            Some(t) => t.filled_count(),
            None => 0,
        }
    }

    /// Every card that is still in circulation: in the deck, in a hand, or
    /// in the current trick. Cards of resolved tricks have left play.
    pub open spec fn cards_in_play(self) -> Multiset<Card> {
        self.deck.cards@.to_multiset().add(self.hand_at(0).to_multiset()).add(
            self.hand_at(1).to_multiset(),
        ).add(self.hand_at(2).to_multiset()).add(self.hand_at(3).to_multiset()).add(
            self.trick_cards(),
        )
    }

    /// Is `card` a legal answer for `player` right now?
    pub open spec fn valid_play_spec(self, player: PlayerNumber, card: Card) -> bool {
        &&& self.trick is Some
        &&& legal_choice(self.hand_at(player.index_spec()), self.trick.unwrap(), card)
    }

    /// Phase-specific shape of the state: which options are set, how large
    /// each hand is, and where the turn stands in the cycle that started at
    /// the trump-caller.
    pub open spec fn phase_wf(self) -> bool {
        match self.game_state {
            GameState::DealingInitialFiveCards => {
                let k = self.hand_total() / 5;
                &&& self.trump_suit is None
                &&& self.trick is None
                &&& self.score_total() == 0
                &&& self.hand_total() % 5 == 0
                &&& 0 <= self.hand_total() < 20
                &&& forall|j: int|
                    0 <= j < 4 ==> (#[trigger] self.hand_at(
                        self.trump_caller.plus(j).index_spec(),
                    )).len() == (if j < k {
                        5int
                    } else {
                        0int
                    })
                &&& self.turn == self.trump_caller.plus(k)
            },
            GameState::SettingTrumpSuit => {
                &&& self.trump_suit is None
                &&& self.trick is None
                &&& self.score_total() == 0
                &&& forall|j: int| 0 <= j < 4 ==> (#[trigger] self.hand_at(j)).len() == 5
                &&& self.turn == self.trump_caller
            },
            GameState::DealingRestOfCards => {
                // k batches of four have gone out; the table is served twice
                // (hands grow 5, 9, 13), so k runs from 0 to 8 exclusive.
                let k = (self.hand_total() - 20) / 4;
                let q = k / 4;
                let r = k % 4;
                &&& self.trump_suit is Some
                &&& self.trick is None
                &&& self.score_total() == 0
                &&& (self.hand_total() - 20) % 4 == 0
                &&& 20 <= self.hand_total() < 52
                &&& forall|j: int|
                    0 <= j < 4 ==> (#[trigger] self.hand_at(
                        self.trump_caller.plus(j).index_spec(),
                    )).len() == 5 + 4 * q + (if j < r {
                        4int
                    } else {
                        0int
                    })
                &&& self.turn == self.trump_caller.plus(r)
            },
            GameState::SortHands => {
                &&& self.trump_suit is Some
                &&& self.score_total() == 0
                &&& forall|j: int| 0 <= j < 4 ==> (#[trigger] self.hand_at(j)).len() == 13
                &&& self.turn == self.trump_caller
                &&& self.trick matches Some(t) && t.filled_count() == 0 && t.played_prefix()
                    && t.first_player == self.turn
            },
            GameState::NormalPlay => {
                &&& self.trump_suit is Some
                &&& self.deck.cards@.len() == 0
                &&& self.trick matches Some(t) && t.played_prefix() && self.turn
                    == t.first_player.plus(t.filled_count() % 4) && (forall|j: int|
                    0 <= j < 4 ==> (#[trigger] self.hand_at(j)).len() == 13 - self.score_total() - (
                    if t.played_cards@[j] is Some {
                        1int
                    } else {
                        0int
                    }))
            },
            GameState::Finished => self.winning_team() is Some,
        }
    }

    /// The game-wide invariant: conservation of the 52 cards, no card
    /// duplicated anywhere, and the phase-specific shape above. Established
    /// by `new` and preserved by every `play` step.
    pub open spec fn wf(self) -> bool {
        &&& self.deck.cards@.len() + self.hand_total() + self.trick_count() + 4
            * self.score_total() == 52
        &&& self.cards_in_play().subset_of(full_deck_seq().to_multiset())
        &&& self.phase_wf()
    }

    /// An upper bound on the number of further successful steps: strictly
    /// decreases on every step that is not an invalid play and not made in a
    /// finished game.
    pub open spec fn measure(self) -> int {
        phase_weight(self.game_state) + 3 * self.deck.cards@.len() + 2 * self.hand_total()
            + self.trick_count()
    }

    /// A fresh game: a shuffled full deck, empty hands, zero scores, no
    /// trump suit yet, and the designated trump-caller on turn, about to
    /// receive the first batch of five cards.
    pub fn new(trump_caller: PlayerNumber) -> (g: Hokm)
        ensures
            g.wf(),
            g.game_state == GameState::DealingInitialFiveCards,
            g.trump_caller == trump_caller,
            g.turn == trump_caller,
            g.trump_suit is None,
            g.trick is None,
            g.deck.cards@.len() == 52,
            g.deck.cards@.to_multiset() == full_deck_seq().to_multiset(),
            forall|j: int| 0 <= j < 4 ==> (#[trigger] g.hand_at(j)).len() == 0 && g.seat(j).score
                == 0,
    {
        let deck = Deck::new().shuffle();
        let g = Hokm {
            deck,
            player1: PlayerState::new(),
            player2: PlayerState::new(),
            player3: PlayerState::new(),
            player4: PlayerState::new(),
            trump_suit: None,
            trump_caller,
            turn: trump_caller,
            trick: None,
            game_state: GameState::DealingInitialFiveCards,
        };
        proof {
            broadcast use vstd::seq_lib::group_to_multiset_ensures;
            broadcast use vstd::multiset::group_multiset_axioms;

            assert(g.cards_in_play() =~= g.deck.cards@.to_multiset());
            crate::game::player::lemma_plus_zero(trump_caller);
            assert forall|j: int| 0 <= j < 4 implies (#[trigger] g.hand_at(
                trump_caller.plus(j).index_spec(),
            )).len() == 0 by {
                crate::game::player::lemma_player_index_roundtrip(
                    (trump_caller.index_spec() + j) % 4,
                );
            }
        }
        g
    }

    /// Read-only view of a seat's hand and score.
    pub fn player_state(&self, p: PlayerNumber) -> (s: &PlayerState)
        ensures
            *s == self.seat(p.index_spec()),
    {
        match p {
            PlayerNumber::One => &self.player1,
            PlayerNumber::Two => &self.player2,
            PlayerNumber::Three => &self.player3,
            PlayerNumber::Four => &self.player4,
        }
    }

    fn caller(&self) -> (s: &PlayerState)
        ensures
            *s == self.seat(self.trump_caller.index_spec()),
    {
        self.player_state(self.trump_caller)
    }

    fn current(&self) -> (s: &PlayerState)
        ensures
            *s == self.seat(self.turn.index_spec()),
    {
        self.player_state(self.turn)
    }

    pub fn team_scores(&self) -> (r: (u32, u32))
        requires
            self.wf(),
        ensures
            r.0 == self.team_scores_spec().0,
            r.1 == self.team_scores_spec().1,
    {
        (self.player1.score + self.player3.score, self.player2.score + self.player4.score)
    }

    /// The team that has reached the win threshold, if either has.
    pub fn determine_winner(&self) -> (r: Option<Team>)
        requires
            self.wf(),
        ensures
            r == self.winning_team(),
    {
        let (t13, t24) = self.team_scores();
        if t13 >= WIN_THRESHOLD {
            Some(Team::PlayersOneAndThree)
        } else if t24 >= WIN_THRESHOLD {
            Some(Team::PlayersTwoAndFour)
        } else {
            None
        }
    }

    /// The phase, re-deriving Finished from the scores on every query.
    pub fn game_state(&self) -> (s: GameState)
        requires
            self.wf(),
        ensures
            s == self.state_spec(),
    {
        if self.determine_winner().is_some() {
            return GameState::Finished;
        }
        self.game_state
    }

    pub fn deck_size(&self) -> (n: usize)
        ensures
            n == self.deck.cards@.len(),
    {
        self.deck.size()
    }

    pub fn trump_suit(&self) -> (r: Option<Suit>)
        ensures
            r == self.trump_suit,
    {
        self.trump_suit
    }

    pub fn trump_caller(&self) -> (r: PlayerNumber)
        ensures
            r == self.trump_caller,
    {
        self.trump_caller
    }

    pub fn turn(&self) -> (r: PlayerNumber)
        ensures
            r == self.turn,
    {
        self.turn
    }

    pub fn trick(&self) -> (r: Option<&Trick>)
        ensures
            r is Some <==> self.trick is Some,
            r matches Some(t) ==> self.trick == Some(*t),
    {
        self.trick.as_ref()
    }

    /// Hand `cards` to the seat `p`, leaving everything else alone.
    fn deal_to(&mut self, p: PlayerNumber, cards: Vec<Card>)
        ensures
            final(self).seat(p.index_spec()).hand.cards@ == old(self).seat(
                p.index_spec(),
            ).hand.cards@ + cards@,
            final(self).seat(p.index_spec()).score == old(self).seat(p.index_spec()).score,
            forall|j: int|
                0 <= j < 4 && j != p.index_spec() ==> final(self).seat(j) == old(self).seat(j),
            final(self).deck == old(self).deck,
            final(self).trump_suit == old(self).trump_suit,
            final(self).trump_caller == old(self).trump_caller,
            final(self).turn == old(self).turn,
            final(self).trick == old(self).trick,
            final(self).game_state == old(self).game_state,
    {
        match p {
            PlayerNumber::One => self.player1.deal_cards(cards),
            PlayerNumber::Two => self.player2.deal_cards(cards),
            PlayerNumber::Three => self.player3.deal_cards(cards),
            PlayerNumber::Four => self.player4.deal_cards(cards),
        }
    }

    /// Credit the seat `p` with one more trick.
    fn add_score(&mut self, p: PlayerNumber)
        requires
            old(self).seat(p.index_spec()).score < 13,
        ensures
            final(self).seat(p.index_spec()).score == old(self).seat(p.index_spec()).score + 1,
            final(self).seat(p.index_spec()).hand == old(self).seat(p.index_spec()).hand,
            forall|j: int|
                0 <= j < 4 && j != p.index_spec() ==> final(self).seat(j) == old(self).seat(j),
            final(self).deck == old(self).deck,
            final(self).trump_suit == old(self).trump_suit,
            final(self).trump_caller == old(self).trump_caller,
            final(self).turn == old(self).turn,
            final(self).trick == old(self).trick,
            final(self).game_state == old(self).game_state,
    {
        match p {
            PlayerNumber::One => self.player1.score = self.player1.score + 1,
            PlayerNumber::Two => self.player2.score = self.player2.score + 1,
            PlayerNumber::Three => self.player3.score = self.player3.score + 1,
            PlayerNumber::Four => self.player4.score = self.player4.score + 1,
        }
    }

    /// Take `card` out of the hand of seat `p` (its first occurrence).
    #[verifier::rlimit(60)]
    fn remove_from_seat(&mut self, p: PlayerNumber, card: Card) -> (found: bool)
        ensures
            found == old(self).hand_at(p.index_spec()).contains(card),
            !found ==> *final(self) == *old(self),
            found ==> exists|i: int|
                0 <= i < old(self).hand_at(p.index_spec()).len() && old(self).hand_at(
                    p.index_spec(),
                )[i] == card && final(self).hand_at(p.index_spec()) == old(self).hand_at(
                    p.index_spec(),
                ).remove(i),
            final(self).seat(p.index_spec()).score == old(self).seat(p.index_spec()).score,
            forall|j: int|
                0 <= j < 4 && j != p.index_spec() ==> final(self).seat(j) == old(self).seat(j),
            final(self).deck == old(self).deck,
            final(self).trump_suit == old(self).trump_suit,
            final(self).trump_caller == old(self).trump_caller,
            final(self).turn == old(self).turn,
            final(self).trick == old(self).trick,
            final(self).game_state == old(self).game_state,
    {
        let found = match p {
            PlayerNumber::One => self.player1.hand.remove_card(card),
            PlayerNumber::Two => self.player2.hand.remove_card(card),
            PlayerNumber::Three => self.player3.hand.remove_card(card),
            PlayerNumber::Four => self.player4.hand.remove_card(card),
        };
        proof {
            let ti = p.index_spec();
            let oh = old(self).hand_at(ti);
            if found {
                let i = choose|i: int|
                    0 <= i < oh.len() && oh[i] == card && self.hand_at(ti) == oh.remove(i) && (
                    forall|j: int| 0 <= j < i ==> oh[j] != card);
                assert(0 <= i < oh.len() && oh[i] == card && self.hand_at(ti) == oh.remove(i));
            }
        }
        found
    }

    /// Record `card` in the current trick's slot for seat `p`.
    fn set_trick_slot(&mut self, p: PlayerNumber, card: Card)
        requires
            old(self).trick is Some,
        ensures
            final(self).trick matches Some(t) && old(self).trick matches Some(pt)
                && t.first_player == pt.first_player && t.played_cards@
                == pt.played_cards@.update(p.index_spec(), Some(card)),
            forall|j: int| 0 <= j < 4 ==> final(self).seat(j) == old(self).seat(j),
            final(self).deck == old(self).deck,
            final(self).trump_suit == old(self).trump_suit,
            final(self).trump_caller == old(self).trump_caller,
            final(self).turn == old(self).turn,
            final(self).game_state == old(self).game_state,
    {
        let i = p.as_index();
        match &mut self.trick {
            Some(t) => {
                t.played_cards[i] = Some(card);
            },
            None => {
                proof {
                    assert(false);
                }
            },
        }
    }

    /// Helper for the dealing steps: hand the `n` top cards of the deck to
    /// the seat on turn and advance the turn.
    fn deal_batch(&mut self, n: usize) -> (dealt: PlayerNumber)
        requires
            n <= old(self).deck.cards@.len(),
        ensures
            dealt == old(self).turn,
            ({
                let ti = old(self).turn.index_spec();
                let dlen = old(self).deck.cards@.len() as int;
                &&& final(self).seat(ti).hand.cards@ == old(self).seat(ti).hand.cards@ + old(
                    self,
                ).deck.cards@.subrange(dlen - n, dlen)
                &&& final(self).seat(ti).score == old(self).seat(ti).score
                &&& forall|j: int|
                    0 <= j < 4 && j != ti ==> final(self).seat(j) == old(self).seat(j)
                &&& final(self).deck.cards@ == old(self).deck.cards@.subrange(0, dlen - n)
            }),
            final(self).turn == old(self).turn.next(),
            final(self).trump_suit == old(self).trump_suit,
            final(self).trump_caller == old(self).trump_caller,
            final(self).trick == old(self).trick,
            final(self).game_state == old(self).game_state,
            final(self).cards_in_play() == old(self).cards_in_play(),
            final(self).hand_total() == old(self).hand_total() + n,
    {
        let turn = self.turn;
        let cards = self.deck.draw_multiple_cards(n);
        proof {
            broadcast use vstd::multiset::group_multiset_axioms;

            let pre = *old(self);
            let dlen = pre.deck.cards@.len() as int;
            assert(pre.deck.cards@ =~= pre.deck.cards@.subrange(0, dlen - n) + pre.deck.cards@
                .subrange(dlen - n, dlen));
            vstd::seq_lib::lemma_multiset_commutative(
                pre.deck.cards@.subrange(0, dlen - n),
                pre.deck.cards@.subrange(dlen - n, dlen),
            );
        }
        self.deal_to(turn, cards);
        let ghost mid = *self;
        self.turn.increment();
        proof {
            broadcast use vstd::multiset::group_multiset_axioms;

            let pre = *old(self);
            let ti = pre.turn.index_spec();
            let dlen = pre.deck.cards@.len() as int;
            let drawn = pre.deck.cards@.subrange(dlen - n, dlen);
            vstd::seq_lib::lemma_multiset_commutative(pre.seat(ti).hand.cards@, drawn);
            assert forall|j: int| 0 <= j < 4 && j != ti implies self.seat(j) == pre.seat(j) by {
                assert(mid.seat(j) == pre.seat(j));
                assert(self.seat(j) == mid.seat(j));
            }
            assert(self.hand_at(ti) == pre.hand_at(ti) + drawn);
            assert(self.cards_in_play() =~= pre.cards_in_play());
        }
        turn
    }

    /// Is `card` a legal answer from `player`: held in that seat's hand, and
    /// following the leader's suit whenever that hand can.
    fn is_valid_play(&self, player: PlayerNumber, card: Card) -> (r: bool)
        ensures
            r == self.valid_play_spec(player, card),
    {
        let hand = &self.player_state(player).hand;
        if !hand.contains_card(card) {
            return false;
        }
        let trick = match self.trick.as_ref() {
            Some(t) => t,
            None => {
                return false;
            },
        };
        let first_card = match trick.first_card() {
            Some(c) => c,
            None => {
                return true;
            },
        };
        if hand.count_of_suit(first_card.suit()) > 0 {
            return card.suit() == first_card.suit();
        }
        true
    }
}

impl Hokm {
    /// The single state-transition entry point: advance the game by exactly
    /// one phase-step, consulting the given players where a decision is
    /// needed, and report what happened. The contract follows the stored
    /// phase: each `..._rel` relation below pins the transition; an invalid
    /// answer from a player changes nothing; in a finished game nothing
    /// changes and the winning team is reported again. Apart from invalid
    /// plays and finished games, every step strictly decreases `measure`,
    /// which bounds the number of steps a whole game can take.
    pub fn play<PA: Player, PB: Player, PC: Player, PD: Player>(
        &mut self,
        pa: &mut PA,
        pb: &mut PB,
        pc: &mut PC,
        pd: &mut PD,
    ) -> (event: GameEvent)
        requires
            old(self).wf(),
        ensures
            final(self).wf(),
            final(self).trump_caller == old(self).trump_caller,
            old(self).game_state == GameState::DealingInitialFiveCards ==> deal5_rel(
                *old(self),
                *final(self),
                event,
            ),
            old(self).game_state == GameState::SettingTrumpSuit ==> trump_rel(
                *old(self),
                *final(self),
                event,
            ),
            old(self).game_state == GameState::DealingRestOfCards ==> deal_rest_rel(
                *old(self),
                *final(self),
                event,
            ),
            old(self).game_state == GameState::SortHands ==> sort_rel(
                *old(self),
                *final(self),
                event,
            ),
            old(self).game_state == GameState::NormalPlay ==> normal_rel(
                *old(self),
                *final(self),
                event,
            ),
            old(self).game_state == GameState::Finished ==> *final(self) == *old(self) && event
                == GameEvent::Won(old(self).winning_team().unwrap()),
            old(self).state_spec() != GameState::Finished && !(event is InvalidPlay)
                ==> final(self).measure() < old(self).measure(),
    {
        match self.game_state {
            GameState::DealingInitialFiveCards => deal_initial_five_cards(self),
            GameState::SettingTrumpSuit => set_trump_suit(self, pa, pb, pc, pd),
            GameState::DealingRestOfCards => deal_rest_of_cards(self),
            GameState::SortHands => sort_hands(self),
            GameState::NormalPlay => normal_play(self, pa, pb, pc, pd),
            GameState::Finished => GameEvent::Won(self.determine_winner().unwrap()),
        }
    }
}

/// Conservation of cards: at every well-formed state, the deck, the four
/// hands, the current trick and the resolved tricks (four cards per point
/// scored) account for exactly the 52 cards, and no card is duplicated
/// anywhere in play.
pub proof fn lemma_card_conservation(g: Hokm)
    requires
        g.wf(),
    ensures
        g.deck.cards@.len() + g.hand_total() + g.trick_count() + 4 * g.score_total() == 52,
        g.cards_in_play().subset_of(full_deck_seq().to_multiset()),
        forall|c: Card| #[trigger] g.cards_in_play().count(c) <= 1,
{
    crate::cards::deck::lemma_full_deck_distinct();
    assert forall|c: Card| #[trigger] g.cards_in_play().count(c) <= 1 by {
        assert(g.cards_in_play().count(c) <= full_deck_seq().to_multiset().count(c));
    }
}

/// Turn cycling: each dealing phase walks the seats in cyclic order from
/// the trump-caller, and full cycles bring the turn back to the caller both
/// when the trump suit is about to be chosen and when play is about to
/// begin (where the caller also leads the first trick).
pub proof fn lemma_turn_returns_to_caller(g: Hokm)
    requires
        g.wf(),
        g.game_state == GameState::SettingTrumpSuit || g.game_state == GameState::SortHands,
    ensures
        g.turn == g.trump_caller,
        g.game_state == GameState::SortHands ==> (g.trick matches Some(t) && t.first_player
            == g.trump_caller),
{
}

/// The step measure is bounded at every well-formed state, so a game run
/// from a fresh state finishes within a bounded number of steps: every
/// step that is not an invalid play and not in a finished game decreases
/// `measure`, which never exceeds 161.
pub proof fn lemma_measure_bounded(g: Hokm)
    requires
        g.wf(),
    ensures
        0 <= g.measure() <= 161,
{
}

/// What one step in `DealingInitialFiveCards` does: the five top cards of
/// the deck go to the seat on turn, the turn advances one seat, and once 20
/// cards are out the phase moves to `SettingTrumpSuit`.
pub open spec fn deal5_rel(pre: Hokm, post: Hokm, event: GameEvent) -> bool {
    let ti = pre.turn.index_spec();
    let dlen = pre.deck.cards@.len() as int;
    &&& event == GameEvent::DealtCards(pre.turn, 5)
    &&& post.seat(ti).hand.cards@ == pre.seat(ti).hand.cards@ + pre.deck.cards@.subrange(
        dlen - 5,
        dlen,
    )
    &&& post.seat(ti).score == pre.seat(ti).score
    &&& forall|j: int| 0 <= j < 4 && j != ti ==> post.seat(j) == pre.seat(j)
    &&& post.deck.cards@ == pre.deck.cards@.subrange(0, dlen - 5)
    &&& post.turn == pre.turn.next()
    &&& post.trump_suit == pre.trump_suit
    &&& post.trump_caller == pre.trump_caller
    &&& post.trick == pre.trick
    &&& post.game_state == (if pre.hand_total() + 5 == 20 {
        GameState::SettingTrumpSuit
    } else {
        GameState::DealingInitialFiveCards
    })
    // The four batches of five are one full cycle of the table: when the
    // twentieth card goes out, the turn is back at the trump-caller.
    &&& pre.hand_total() + 5 == 20 ==> post.turn == post.trump_caller
}

/// What one step in `DealingRestOfCards` does: like the first deal but four
/// cards at a time, and once all 52 cards are out the phase moves to
/// `SortHands` with a fresh trick led by the seat then on turn (the
/// trump-caller again).
pub open spec fn deal_rest_rel(pre: Hokm, post: Hokm, event: GameEvent) -> bool {
    let ti = pre.turn.index_spec();
    let dlen = pre.deck.cards@.len() as int;
    &&& event == GameEvent::DealtCards(pre.turn, 4)
    &&& post.seat(ti).hand.cards@ == pre.seat(ti).hand.cards@ + pre.deck.cards@.subrange(
        dlen - 4,
        dlen,
    )
    &&& post.seat(ti).score == pre.seat(ti).score
    &&& forall|j: int| 0 <= j < 4 && j != ti ==> post.seat(j) == pre.seat(j)
    &&& post.deck.cards@ == pre.deck.cards@.subrange(0, dlen - 4)
    &&& post.turn == pre.turn.next()
    &&& post.trump_suit == pre.trump_suit
    &&& post.trump_caller == pre.trump_caller
    &&& if pre.hand_total() + 4 == 52 {
        // The eight batches of four are two full cycles of the table: when
        // the last card goes out, the trump-caller is on turn again and
        // leads the fresh trick.
        &&& post.game_state == GameState::SortHands
        &&& post.turn == post.trump_caller
        &&& post.trick matches Some(t) && t.first_player == post.turn && t.filled_count() == 0
            && t.played_prefix()
    } else {
        &&& post.game_state == GameState::DealingRestOfCards
        &&& post.trick == pre.trick
    }
}

/// What the `SettingTrumpSuit` step does: the player sitting at the
/// trump-caller's seat (which is on turn here) chooses a suit from its own
/// hand; the suit is stored, once and for all, and the phase moves to the
/// second deal.
pub open spec fn trump_rel(pre: Hokm, post: Hokm, event: GameEvent) -> bool {
    &&& event is SetTrumpSuit
    &&& event matches GameEvent::SetTrumpSuit(s) ==> post == (Hokm {
        trump_suit: Some(s),
        game_state: GameState::DealingRestOfCards,
        ..pre
    })
}

/// What the `SortHands` step does: every hand is rearranged into ascending
/// key order, nothing else changes, and play begins.
pub open spec fn sort_rel(pre: Hokm, post: Hokm, event: GameEvent) -> bool {
    &&& event == GameEvent::SortedHands
    &&& forall|j: int|
        0 <= j < 4 ==> sorted_by_key(#[trigger] post.hand_at(j)) && post.hand_at(j).to_multiset()
            == pre.hand_at(j).to_multiset() && post.hand_at(j).len() == pre.hand_at(j).len()
            && post.seat(j).score == pre.seat(j).score
    &&& post.deck == pre.deck
    &&& post.trump_suit == pre.trump_suit
    &&& post.trump_caller == pre.trump_caller
    &&& post.turn == pre.turn
    &&& post.trick == pre.trick
    &&& post.game_state == GameState::NormalPlay
}

/// The accepted-play transition: the card leaves the hand of the seat on
/// turn (its first occurrence), lands in that seat's trick slot, and the
/// turn advances one seat.
pub open spec fn play_applied(pre: Hokm, post: Hokm, c: Card) -> bool {
    let ti = pre.turn.index_spec();
    &&& exists|i: int|
        0 <= i < pre.hand_at(ti).len() && pre.hand_at(ti)[i] == c && post.hand_at(ti)
            == pre.hand_at(ti).remove(i)
    &&& post.seat(ti).score == pre.seat(ti).score
    &&& forall|j: int| 0 <= j < 4 && j != ti ==> post.seat(j) == pre.seat(j)
    &&& post.trick matches Some(t) && pre.trick matches Some(pt) && t.first_player
        == pt.first_player && t.played_cards@ == pt.played_cards@.update(ti, Some(c))
    &&& post.turn == pre.turn.next()
    &&& post.deck == pre.deck
    &&& post.trump_suit == pre.trump_suit
    &&& post.trump_caller == pre.trump_caller
    &&& post.game_state == pre.game_state
}

/// What one `NormalPlay` step does. If a team has already won, the game just
/// finishes. Else, a fully-played trick is resolved: every player is
/// notified, the winner scores, takes the turn, and leads a fresh trick.
/// Else the seat on turn is asked for a card, which is validated: a legal
/// card is applied per `play_applied`, an illegal one changes nothing.
pub open spec fn normal_rel(pre: Hokm, post: Hokm, event: GameEvent) -> bool {
    if pre.winning_team() is Some {
        &&& event == GameEvent::Won(pre.winning_team().unwrap())
        &&& post == (Hokm { game_state: GameState::Finished, ..pre })
    } else if pre.trick_count() == 4 {
        let t = pre.trick.unwrap();
        let w = t.winner_spec(pre.trump_suit.unwrap());
        let wi = w.index_spec();
        &&& event == GameEvent::Scored(w)
        &&& post.seat(wi).score == pre.seat(wi).score + 1
        &&& post.seat(wi).hand == pre.seat(wi).hand
        &&& forall|j: int| 0 <= j < 4 && j != wi ==> post.seat(j) == pre.seat(j)
        &&& post.turn == w
        &&& post.trick matches Some(nt) && nt.first_player == w && nt.filled_count() == 0
            && nt.played_prefix()
        &&& post.deck == pre.deck
        &&& post.trump_suit == pre.trump_suit
        &&& post.trump_caller == pre.trump_caller
        &&& post.game_state == pre.game_state
    } else {
        &&& (event is PlayedCard || event is InvalidPlay)
        &&& (event matches GameEvent::PlayedCard(p, c) ==> p == pre.turn && pre.valid_play_spec(
            p,
            c,
        ) && play_applied(pre, post, c))
        &&& (event matches GameEvent::InvalidPlay(p, c) ==> p == pre.turn && !pre.valid_play_spec(
            p,
            c,
        ) && post == pre)
    }
}

/// Ask the trump-caller's player for the trump suit; see `trump_rel`.
fn set_trump_suit<PA: Player, PB: Player, PC: Player, PD: Player>(
    hokm: &mut Hokm,
    pa: &mut PA,
    pb: &mut PB,
    pc: &mut PC,
    pd: &mut PD,
) -> (event: GameEvent)
    requires
        old(hokm).wf(),
        old(hokm).game_state == GameState::SettingTrumpSuit,
    ensures
        final(hokm).wf(),
        trump_rel(*old(hokm), *final(hokm), event),
        final(hokm).measure() < old(hokm).measure(),
{
    let ghost pre = *old(hokm);
    // By the deal arithmetic, the trump-caller is back on turn here, so the
    // deciding player is the one sitting at the trump-caller's seat, and it
    // chooses from its own hand.
    let trump_suit = match hokm.turn {
        PlayerNumber::One => pa.call_trump_suit(&hokm.player1.hand),
        PlayerNumber::Two => pb.call_trump_suit(&hokm.player2.hand),
        PlayerNumber::Three => pc.call_trump_suit(&hokm.player3.hand),
        PlayerNumber::Four => pd.call_trump_suit(&hokm.player4.hand),
    };
    hokm.trump_suit = Some(trump_suit);
    hokm.game_state = GameState::DealingRestOfCards;
    proof {
        crate::game::player::lemma_plus_zero(pre.trump_caller);
        assert forall|j: int|
            0 <= j < 4 implies (#[trigger] hokm.hand_at(
            hokm.trump_caller.plus(j).index_spec(),
        )).len() == 5 by {
            crate::game::player::lemma_player_index_roundtrip(
                (pre.trump_caller.index_spec() + j) % 4,
            );
        }
    }
    GameEvent::SetTrumpSuit(trump_suit)
}

/// Sort all four hands and move to play; see `sort_rel`.
fn sort_hands(hokm: &mut Hokm) -> (event: GameEvent)
    requires
        old(hokm).wf(),
        old(hokm).game_state == GameState::SortHands,
    ensures
        final(hokm).wf(),
        sort_rel(*old(hokm), *final(hokm), event),
        final(hokm).measure() < old(hokm).measure(),
{
    let ghost pre = *old(hokm);
    hokm.player1.sort_hand();
    hokm.player2.sort_hand();
    hokm.player3.sort_hand();
    hokm.player4.sort_hand();
    hokm.game_state = GameState::NormalPlay;
    proof {
        broadcast use vstd::multiset::group_multiset_axioms;

        let t = pre.trick.unwrap();
        crate::game::player::lemma_plus_zero(t.first_player);
        assert(hokm.cards_in_play() =~= pre.cards_in_play());
    }
    GameEvent::SortedHands
}

/// One step of trick play; see `normal_rel`.
fn normal_play<PA: Player, PB: Player, PC: Player, PD: Player>(
    hokm: &mut Hokm,
    pa: &mut PA,
    pb: &mut PB,
    pc: &mut PC,
    pd: &mut PD,
) -> (event: GameEvent)
    requires
        old(hokm).wf(),
        old(hokm).game_state == GameState::NormalPlay,
    ensures
        final(hokm).wf(),
        normal_rel(*old(hokm), *final(hokm), event),
        old(hokm).state_spec() != GameState::Finished && !(event is InvalidPlay)
            ==> final(hokm).measure() < old(hokm).measure(),
{
    match hokm.determine_winner() {
        Some(team) => {
            hokm.game_state = GameState::Finished;
            return GameEvent::Won(team);
        },
        None => {},
    }
    let all_played = hokm.trick.as_ref().unwrap().have_all_played();
    if all_played {
        resolve_trick(hokm, pa, pb, pc, pd)
    } else {
        ask_for_card(hokm, pa, pb, pc, pd)
    }
}

/// Resolve a fully-played trick: notify every player, credit the winner,
/// hand it the turn, and start a fresh trick it leads.
#[verifier::rlimit(100)]
fn resolve_trick<PA: Player, PB: Player, PC: Player, PD: Player>(
    hokm: &mut Hokm,
    pa: &mut PA,
    pb: &mut PB,
    pc: &mut PC,
    pd: &mut PD,
) -> (event: GameEvent)
    requires
        old(hokm).wf(),
        old(hokm).game_state == GameState::NormalPlay,
        old(hokm).winning_team() is None,
        old(hokm).trick_count() == 4,
    ensures
        final(hokm).wf(),
        normal_rel(*old(hokm), *final(hokm), event),
        final(hokm).measure() < old(hokm).measure(),
{
    let ghost pre = *old(hokm);
    let trump_suit = hokm.trump_suit.unwrap();
    let winner = hokm.trick.as_ref().unwrap().winner(trump_suit).unwrap();
    // Let every seat's player record the completed trick.
    {
        let t = hokm.trick.as_ref().unwrap();
        pa.trick_end(t);
        pb.trick_end(t);
        pc.trick_end(t);
        pd.trick_end(t);
    }
    proof {
        // Every hand holds a card per unresolved trick, so the winner's
        // score is well below its bound.
        assert(pre.hand_at(0).len() == 13 - pre.score_total() - 1);
        assert(pre.seat(winner.index_spec()).score < 13);
    }
    hokm.add_score(winner);
    let ghost mid = *hokm;
    hokm.turn = winner;
    hokm.trick = Some(Trick::new(winner));
    proof {
        broadcast use vstd::multiset::group_multiset_axioms;

        let wi = winner.index_spec();
        assert forall|j: int| 0 <= j < 4 && j != wi implies hokm.seat(j) == pre.seat(j) by {
            assert(mid.seat(j) == pre.seat(j));
            assert(hokm.seat(j) == mid.seat(j));
        }
        assert(hokm.seat(wi).hand == pre.seat(wi).hand);
        crate::game::player::lemma_plus_zero(winner);
        assert(hokm.cards_in_play().add(pre.trick_cards()) =~= pre.cards_in_play());
        assert forall|v: Card|
            hokm.cards_in_play().count(v) <= full_deck_seq().to_multiset().count(v) by {
            assert(pre.cards_in_play().count(v) <= full_deck_seq().to_multiset().count(v));
        }
    }
    GameEvent::Scored(winner)
}

/// The bookkeeping of an accepted play: removing the card from the hand of
/// the seat on turn (at hand position `i`), writing it into that seat's
/// trick slot, and advancing the turn preserves the game invariant,
/// realises `play_applied`, and decreases the measure.
#[verifier::rlimit(60)]
proof fn lemma_play_card_step(pre: Hokm, post: Hokm, card: Card, i: int)
    requires
        pre.wf(),
        pre.game_state == GameState::NormalPlay,
        pre.winning_team() is None,
        pre.trick_count() < 4,
        pre.valid_play_spec(pre.turn, card),
        ({
            let ti = pre.turn.index_spec();
            &&& 0 <= i < pre.hand_at(ti).len() && pre.hand_at(ti)[i] == card
            &&& post.hand_at(ti) == pre.hand_at(ti).remove(i)
            &&& post.seat(ti).score == pre.seat(ti).score
            &&& forall|j: int| 0 <= j < 4 && j != ti ==> post.seat(j) == pre.seat(j)
            &&& post.trick matches Some(t) && pre.trick matches Some(pt) && t.first_player
                == pt.first_player && t.played_cards@ == pt.played_cards@.update(ti, Some(card))
            &&& post.deck == pre.deck
            &&& post.trump_suit == pre.trump_suit
            &&& post.trump_caller == pre.trump_caller
            &&& post.turn == pre.turn.next()
            &&& post.game_state == pre.game_state
        }),
    ensures
        post.wf(),
        play_applied(pre, post, card),
        post.measure() < pre.measure(),
{
    let ti = pre.turn.index_spec();
    let t = pre.trick.unwrap();
    let m = t.filled_count();
    let fi = t.first_player.index_spec();
    let nt = post.trick.unwrap();
    crate::game::player::lemma_player_index_roundtrip((fi + m) % 4);
    assert(pre.turn.index_spec() == (fi + m) % 4);
    assert(t.slot_in_order(m) is None);
    assert(t.played_cards@[ti] is None);
    assert(post.score_total() == pre.score_total());
    lemma_play_card_conservation(pre, post, card, i);
    lemma_trick_slot_filled(t, nt, card, ti);
    crate::game::player::lemma_plus_next(t.first_player, m);
    if m + 1 == 4 {
        crate::game::player::lemma_player_index_roundtrip(fi);
        assert(t.first_player.plus(4) == t.first_player.plus(0));
    }
    assert(post.turn == t.first_player.plus((m + 1) % 4));
    // Hand sizes keep step with the score and the freshly filled slot.
    assert forall|j: int|
        0 <= j < 4 implies (#[trigger] post.hand_at(j)).len() == 13 - post.score_total() - (
    if nt.played_cards@[j] is Some {
        1int
    } else {
        0int
    }) by {
        if j == ti {
            assert(post.hand_at(ti) == pre.hand_at(ti).remove(i));
        } else {
            assert(post.seat(j) == pre.seat(j));
            assert(nt.played_cards@[j] == t.played_cards@[j]);
        }
    }
    assert(post.phase_wf());
    assert(post.deck.cards@.len() + post.hand_total() + post.trick_count() + 4 * post.score_total()
        == 52);
}

/// An accepted play moves one card from a hand to the trick: the multiset
/// of cards in play does not change.
#[verifier::rlimit(60)]
proof fn lemma_play_card_conservation(pre: Hokm, post: Hokm, card: Card, i: int)
    requires
        pre.trick is Some,
        post.trick is Some,
        ({
            let ti = pre.turn.index_spec();
            &&& 0 <= i < pre.hand_at(ti).len() && pre.hand_at(ti)[i] == card
            &&& post.hand_at(ti) == pre.hand_at(ti).remove(i)
            &&& forall|j: int| 0 <= j < 4 && j != ti ==> post.seat(j) == pre.seat(j)
            &&& post.trick.unwrap().played_cards@ == pre.trick.unwrap().played_cards@.update(
                ti,
                Some(card),
            )
            &&& pre.trick.unwrap().played_cards@[ti] is None
            &&& post.deck == pre.deck
        }),
    ensures
        post.cards_in_play() == pre.cards_in_play(),
{
    broadcast use vstd::multiset::group_multiset_axioms;

    let ti = pre.turn.index_spec();
    pre.hand_at(ti).to_multiset_ensures();
    assert(post.hand_at(ti).to_multiset() == pre.hand_at(ti).to_multiset().remove(card));
    assert(pre.hand_at(ti).to_multiset().count(card) >= 1);
    assert(post.trick_cards() =~= pre.trick_cards().insert(card));
    assert(post.cards_in_play() =~= pre.cards_in_play());
}

/// Writing a card into the empty slot of the seat on turn extends the
/// filled prefix of the trick by exactly one seat.
proof fn lemma_trick_slot_filled(t: Trick, nt: Trick, card: Card, ti: int)
    requires
        t.played_prefix(),
        t.filled_count() < 4,
        ti == (t.first_player.index_spec() + t.filled_count()) % 4,
        nt.first_player == t.first_player,
        nt.played_cards@ == t.played_cards@.update(ti, Some(card)),
    ensures
        nt.filled_count() == t.filled_count() + 1,
        nt.played_prefix(),
{
    let m = t.filled_count();
    let fi = t.first_player.index_spec();
    crate::game::player::lemma_player_index_roundtrip((fi + m) % 4);
    assert(t.slot_in_order(m) is None);
    assert(t.played_cards@[ti] is None);
    assert(nt.filled_count() == m + 1);
    assert forall|j: int| 0 <= j < 4 implies (#[trigger] nt.slot_in_order(j) is Some <==> j < m
        + 1) by {
        crate::game::player::lemma_player_index_roundtrip((fi + j) % 4);
        assert(t.slot_in_order(j) == t.played_cards@[(fi + j) % 4]);
        if (fi + j) % 4 == ti {
            assert(j == m);
        }
    }
}

/// Ask the seat on turn for a card and validate it: a legal card is played
/// into the trick, an illegal one is only reported.
#[verifier::rlimit(100)]
fn ask_for_card<PA: Player, PB: Player, PC: Player, PD: Player>(
    hokm: &mut Hokm,
    pa: &mut PA,
    pb: &mut PB,
    pc: &mut PC,
    pd: &mut PD,
) -> (event: GameEvent)
    requires
        old(hokm).wf(),
        old(hokm).game_state == GameState::NormalPlay,
        old(hokm).winning_team() is None,
        old(hokm).trick_count() < 4,
    ensures
        final(hokm).wf(),
        normal_rel(*old(hokm), *final(hokm), event),
        !(event is InvalidPlay) ==> final(hokm).measure() < old(hokm).measure(),
{
    let ghost pre = *old(hokm);
    let trump_suit = hokm.trump_suit.unwrap();
    proof {
        // The seat on turn has not yet played into the trick and still holds
        // at least one card.
        let t = pre.trick.unwrap();
        let m = t.filled_count();
        let fi = t.first_player.index_spec();
        crate::game::player::lemma_player_index_roundtrip((fi + m) % 4);
        assert(pre.turn.index_spec() == (fi + m) % 4);
        assert(t.slot_in_order(m) is None);
        assert(t.played_cards@[pre.turn.index_spec()] is None);
        assert(pre.hand_at(pre.turn.index_spec()).len() == 13 - pre.score_total());
        assert(pre.score_total() <= 12);
        assert(t.in_progress());
    }
    let card = match hokm.turn {
        PlayerNumber::One => pa.play(&hokm.player1.hand, trump_suit, hokm.trick.as_ref().unwrap()),
        PlayerNumber::Two => pb.play(&hokm.player2.hand, trump_suit, hokm.trick.as_ref().unwrap()),
        PlayerNumber::Three => pc.play(
            &hokm.player3.hand,
            trump_suit,
            hokm.trick.as_ref().unwrap(),
        ),
        PlayerNumber::Four => pd.play(&hokm.player4.hand, trump_suit, hokm.trick.as_ref().unwrap()),
    };
    if !hokm.is_valid_play(hokm.turn, card) {
        return GameEvent::InvalidPlay(hokm.turn, card);
    }
    let turn = hokm.turn;
    let ghost ti = turn.index_spec();
    hokm.remove_from_seat(turn, card);
    let ghost mid = *hokm;
    hokm.set_trick_slot(turn, card);
    let ghost mid2 = *hokm;
    hokm.turn.increment();
    proof {
        let i = choose|i: int|
            0 <= i < pre.hand_at(ti).len() && pre.hand_at(ti)[i] == card && mid.hand_at(ti)
                == pre.hand_at(ti).remove(i);
        assert forall|j: int| 0 <= j < 4 && j != ti implies hokm.seat(j) == pre.seat(j) by {
            assert(mid.seat(j) == pre.seat(j));
            assert(mid2.seat(j) == mid.seat(j));
            assert(hokm.seat(j) == mid2.seat(j));
        }
        assert(hokm.seat(ti) == mid2.seat(ti) && mid2.seat(ti) == mid.seat(ti));
        assert(hokm.hand_at(ti) == pre.hand_at(ti).remove(i));
        lemma_play_card_step(pre, *hokm, card, i);
    }
    GameEvent::PlayedCard(turn, card)
}

/// Deal one batch of five cards; see `deal5_rel`.
#[verifier::rlimit(60)]
fn deal_initial_five_cards(hokm: &mut Hokm) -> (event: GameEvent)
    requires
        old(hokm).wf(),
        old(hokm).game_state == GameState::DealingInitialFiveCards,
    ensures
        final(hokm).wf(),
        deal5_rel(*old(hokm), *final(hokm), event),
        final(hokm).measure() < old(hokm).measure(),
{
    let ghost pre = *old(hokm);
    let ghost ci = pre.trump_caller.index_spec();
    let ghost k = pre.hand_total() / 5;
    let turn = hokm.deal_batch(5);
    let total = hokm.player1.hand.cards.len() + hokm.player2.hand.cards.len()
        + hokm.player3.hand.cards.len() + hokm.player4.hand.cards.len();
    proof {
        assert(total == pre.hand_total() + 5);
    }
    if total == 20 {
        hokm.game_state = GameState::SettingTrumpSuit;
        proof {
            // Every seat now holds five cards: the four batches went to the
            // four distinct seats caller, caller+1, caller+2, caller+3.
            assert(k == 3);
            assert forall|j: int| 0 <= j < 4 implies (#[trigger] hokm.hand_at(j)).len() == 5 by {
                let j2 = if j >= ci {
                    j - ci
                } else {
                    j - ci + 4
                };
                crate::game::player::lemma_player_index_roundtrip((ci + j2) % 4);
                assert(pre.trump_caller.plus(j2).index_spec() == j);
                assert(pre.hand_at(pre.trump_caller.plus(j2).index_spec()).len() == (if j2 < k {
                    5int
                } else {
                    0int
                }));
            }
            crate::game::player::lemma_plus_next(pre.trump_caller, 3);
            crate::game::player::lemma_player_index_roundtrip(ci);
            assert(pre.trump_caller.plus(4) == pre.trump_caller);
            assert(hokm.turn == pre.trump_caller);
        }
    } else {
        proof {
            assert(pre.hand_total() == 5 * k);
            assert(hokm.hand_total() == 5 * (k + 1));
            assert(hokm.hand_total() / 5 == k + 1);
            assert forall|j: int|
                0 <= j < 4 implies (#[trigger] hokm.hand_at(
                hokm.trump_caller.plus(j).index_spec(),
            )).len() == (if j < k + 1 {
                5int
            } else {
                0int
            }) by {
                crate::game::player::lemma_player_index_roundtrip((ci + j) % 4);
                crate::game::player::lemma_player_index_roundtrip((ci + k) % 4);
                assert(pre.hand_at(pre.trump_caller.plus(j).index_spec()).len() == (if j < k {
                    5int
                } else {
                    0int
                }));
                assert(pre.turn.index_spec() == (ci + k) % 4);
            }
            crate::game::player::lemma_plus_next(pre.trump_caller, k);
        }
    }
    GameEvent::DealtCards(turn, 5)
}

/// Deal one batch of four cards; see `deal_rest_rel`.
#[verifier::rlimit(60)]
fn deal_rest_of_cards(hokm: &mut Hokm) -> (event: GameEvent)
    requires
        old(hokm).wf(),
        old(hokm).game_state == GameState::DealingRestOfCards,
    ensures
        final(hokm).wf(),
        deal_rest_rel(*old(hokm), *final(hokm), event),
        final(hokm).measure() < old(hokm).measure(),
{
    let ghost pre = *old(hokm);
    let ghost ci = pre.trump_caller.index_spec();
    let ghost k = (pre.hand_total() - 20) / 4;
    let ghost q = k / 4;
    let ghost r = k % 4;
    let turn = hokm.deal_batch(4);
    let total = hokm.player1.hand.cards.len() + hokm.player2.hand.cards.len()
        + hokm.player3.hand.cards.len() + hokm.player4.hand.cards.len();
    proof {
        assert(total == pre.hand_total() + 4);
        assert(pre.hand_total() - 20 == 4 * k);
        assert(0 <= k < 8);
        assert(pre.turn.index_spec() == (ci + r) % 4);
    }
    if total == 52 {
        hokm.game_state = GameState::SortHands;
        let trick = Trick::new(hokm.turn);
        hokm.trick = Some(trick);
        proof {
            assert(k == 7 && q == 1 && r == 3);
            assert forall|j: int| 0 <= j < 4 implies (#[trigger] hokm.hand_at(j)).len() == 13 by {
                let j2 = if j >= ci {
                    j - ci
                } else {
                    j - ci + 4
                };
                crate::game::player::lemma_player_index_roundtrip((ci + j2) % 4);
                assert(pre.trump_caller.plus(j2).index_spec() == j);
                assert(pre.hand_at(pre.trump_caller.plus(j2).index_spec()).len() == 9 + (if j2
                    < r {
                    4int
                } else {
                    0int
                }));
            }
            crate::game::player::lemma_plus_next(pre.trump_caller, 3);
            crate::game::player::lemma_player_index_roundtrip(ci);
            assert(pre.trump_caller.plus(4) == pre.trump_caller);
            assert(hokm.turn == pre.trump_caller);
        }
        return GameEvent::DealtCards(turn, 4);
    }
    proof {
        let k2 = k + 1;
        let q2 = k2 / 4;
        let r2 = k2 % 4;
        assert(hokm.hand_total() - 20 == 4 * k2);
        assert((hokm.hand_total() - 20) / 4 == k2);
        assert(if r < 3 {
            q2 == q && r2 == r + 1
        } else {
            q2 == q + 1 && r2 == 0
        });
        assert forall|j: int|
            0 <= j < 4 implies (#[trigger] hokm.hand_at(
            hokm.trump_caller.plus(j).index_spec(),
        )).len() == 5 + 4 * q2 + (if j < r2 {
            4int
        } else {
            0int
        }) by {
            crate::game::player::lemma_player_index_roundtrip((ci + j) % 4);
            crate::game::player::lemma_player_index_roundtrip((ci + r) % 4);
            assert(pre.hand_at(pre.trump_caller.plus(j).index_spec()).len() == 5 + 4 * q + (if j
                < r {
                4int
            } else {
                0int
            }));
        }
        crate::game::player::lemma_plus_next(pre.trump_caller, r);
        assert(hokm.turn == pre.trump_caller.plus(r + 1));
        if r == 3 {
            crate::game::player::lemma_player_index_roundtrip(ci);
            assert(pre.trump_caller.plus(4) == pre.trump_caller.plus(0));
        }
    }
    GameEvent::DealtCards(turn, 4)
}

} // verus!
