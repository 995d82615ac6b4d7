use hokm::cards::card::{Card, Rank, Suit};
use hokm::cards::deck::Deck;
use hokm::cards::hand::Hand;
use hokm::game::hokm::{GameEvent, GameState, Hokm};
use hokm::game::player::{Player, PlayerNumber, Team};
use hokm::game::trick::Trick;
use hokm::players::sensible::SensiblePlayer;

// A deliberately simple player: trump from its first held card, always the
// lowest legal card.
struct LowestLegal;

impl Player for LowestLegal {
    fn name(&self) -> String {
        "LowestLegal".to_owned()
    }

    fn call_trump_suit(&mut self, hand: &Hand) -> Suit {
        hand.cards[0].suit()
    }

    fn play(&self, hand: &Hand, _trump_suit: Suit, trick: &Trick) -> Card {
        let candidates = match trick.first_card() {
            Some(f) if hand.count_of_suit(f.suit()) > 0 => hand.cards_of_suit(f.suit()),
            _ => hand.cards.clone(),
        };
        let mut best = candidates[0];
        for c in candidates {
            if c.rank().as_i32() < best.rank().as_i32() {
                best = c;
            }
        }
        best
    }

    fn trick_end(&mut self, _trick: &Trick) {}
}

// A crooked player that answers with a card it does not hold, to exercise
// the engine's validation.
struct Cheat;

impl Player for Cheat {
    fn name(&self) -> String {
        "Cheat".to_owned()
    }

    fn call_trump_suit(&mut self, _hand: &Hand) -> Suit {
        Suit::Spades
    }

    fn play(&self, hand: &Hand, _trump_suit: Suit, _trick: &Trick) -> Card {
        // Answer a card that is surely not in this hand.
        for suit in Suit::all_suits() {
            for rank in Rank::all_ranks() {
                let c = Card::new(rank, suit);
                if !hand.cards.contains(&c) {
                    return c;
                }
            }
        }
        hand.cards[0]
    }

    fn trick_end(&mut self, _trick: &Trick) {}
}

#[test]
fn initial_deal_fills_every_hand_and_reaches_trump_phase() {
    let mut g = Hokm::new(PlayerNumber::One);
    let mut p1 = LowestLegal;
    let mut p2 = LowestLegal;
    let mut p3 = LowestLegal;
    let mut p4 = LowestLegal;
    let mut receivers = Vec::new();
    for _ in 0..4 {
        match g.play(&mut p1, &mut p2, &mut p3, &mut p4) {
            GameEvent::DealtCards(seat, n) => {
                assert_eq!(n, 5);
                receivers.push(seat);
            }
            e => panic!("unexpected event {:?}", e),
        }
    }
    // One full cycle of the table, starting at the trump-caller.
    assert_eq!(
        receivers,
        vec![
            PlayerNumber::One,
            PlayerNumber::Two,
            PlayerNumber::Three,
            PlayerNumber::Four
        ]
    );
    assert_eq!(g.game_state(), GameState::SettingTrumpSuit);
    assert_eq!(g.turn(), PlayerNumber::One);
    for seat in [
        PlayerNumber::One,
        PlayerNumber::Two,
        PlayerNumber::Three,
        PlayerNumber::Four,
    ] {
        assert_eq!(g.player_state(seat).hand().cards.len(), 5);
    }
    assert_eq!(g.deck_size(), 32);
}

#[test]
fn trump_ace_wins_over_higher_plain_cards() {
    // Led by seat One: 7 of Spades; 9 of Spades; Ace of Hearts (trump);
    // 2 of Spades. The trump wins regardless of rank.
    let mut t = Trick::new(PlayerNumber::One);
    t.played_cards[0] = Some(Card::new(Rank::Seven, Suit::Spades));
    t.played_cards[1] = Some(Card::new(Rank::Nine, Suit::Spades));
    t.played_cards[2] = Some(Card::new(Rank::Ace, Suit::Hearts));
    t.played_cards[3] = Some(Card::new(Rank::Two, Suit::Spades));
    assert_eq!(t.winner(Suit::Hearts), Some(PlayerNumber::Three));
}

#[test]
fn lead_suit_decides_without_trump() {
    // Led by seat One: 10 of Diamonds; King of Diamonds; 3 of Clubs;
    // 2 of Diamonds; trump Spades never played. The highest card of the led
    // suit wins.
    let mut t = Trick::new(PlayerNumber::One);
    t.played_cards[0] = Some(Card::new(Rank::Ten, Suit::Diamonds));
    t.played_cards[1] = Some(Card::new(Rank::King, Suit::Diamonds));
    t.played_cards[2] = Some(Card::new(Rank::Three, Suit::Clubs));
    t.played_cards[3] = Some(Card::new(Rank::Two, Suit::Diamonds));
    assert_eq!(t.winner(Suit::Spades), Some(PlayerNumber::Two));
}

#[test]
fn winner_undefined_until_all_played() {
    let mut t = Trick::new(PlayerNumber::Two);
    assert_eq!(t.winner(Suit::Hearts), None);
    t.played_cards[1] = Some(Card::new(Rank::Ace, Suit::Hearts));
    assert_eq!(t.winner(Suit::Hearts), None);
    assert!(!t.have_all_played());
}

#[test]
fn game_state_is_stable_and_finishes_on_seven() {
    let mut g = Hokm::new(PlayerNumber::Two);
    assert_eq!(g.game_state(), g.game_state());
    assert_eq!(g.game_state(), GameState::DealingInitialFiveCards);
    // Finished is re-derived from the scores, whatever phase is stored.
    g.player1.score = 4;
    g.player3.score = 3;
    assert_eq!(g.game_state(), GameState::Finished);
    assert_eq!(g.game_state(), g.game_state());
    assert_eq!(g.determine_winner(), Some(Team::PlayersOneAndThree));
    assert_eq!(g.team_scores(), (7, 0));
}

#[test]
fn conservation_through_the_deal() {
    let mut g = Hokm::new(PlayerNumber::One);
    let mut p1 = LowestLegal;
    let mut p2 = LowestLegal;
    let mut p3 = LowestLegal;
    let mut p4 = LowestLegal;
    for _ in 0..14 {
        g.play(&mut p1, &mut p2, &mut p3, &mut p4);
        let held: usize = [
            PlayerNumber::One,
            PlayerNumber::Two,
            PlayerNumber::Three,
            PlayerNumber::Four,
        ]
        .iter()
        .map(|s| g.player_state(*s).hand().cards.len())
        .sum();
        assert_eq!(g.deck_size() + held, 52);
    }
    assert_eq!(g.game_state(), GameState::NormalPlay);
    assert_eq!(g.turn(), PlayerNumber::One);
}

#[test]
fn full_game_terminates_within_bounded_steps() {
    for _ in 0..20 {
        let mut g = Hokm::new(PlayerNumber::Three);
        let mut p1 = SensiblePlayer::new();
        let mut p2 = LowestLegal;
        let mut p3 = SensiblePlayer::new();
        let mut p4 = LowestLegal;
        let mut steps = 0;
        loop {
            match g.play(&mut p1, &mut p2, &mut p3, &mut p4) {
                GameEvent::Won(_) => break,
                GameEvent::InvalidPlay(p, c) => panic!("illegal play {:?} by {:?}", c, p),
                _ => {}
            }
            steps += 1;
            // 12 dealing steps, the trump call, the sort, at most 52 plays
            // and 13 trick resolutions.
            assert!(steps <= 79);
        }
        assert_eq!(g.game_state(), GameState::Finished);
        assert!(g.determine_winner().is_some());
    }
}

#[test]
fn invalid_play_is_reported_and_changes_nothing() {
    let mut g = Hokm::new(PlayerNumber::One);
    let mut p1 = Cheat;
    let mut p2 = Cheat;
    let mut p3 = Cheat;
    let mut p4 = Cheat;
    // Run through dealing, trump setting and sorting.
    for _ in 0..14 {
        g.play(&mut p1, &mut p2, &mut p3, &mut p4);
    }
    assert_eq!(g.game_state(), GameState::NormalPlay);
    let held_before = g.player_state(PlayerNumber::One).hand().cards.clone();
    match g.play(&mut p1, &mut p2, &mut p3, &mut p4) {
        GameEvent::InvalidPlay(seat, card) => {
            assert_eq!(seat, PlayerNumber::One);
            assert!(!held_before.contains(&card));
        }
        e => panic!("expected an invalid play, got {:?}", e),
    }
    // Nothing changed: same phase, same turn, same hand.
    assert_eq!(g.game_state(), GameState::NormalPlay);
    assert_eq!(g.turn(), PlayerNumber::One);
    assert_eq!(g.player_state(PlayerNumber::One).hand().cards, held_before);
}

#[test]
fn shuffled_deck_keeps_exactly_the_52_cards() {
    let deck = Deck::new();
    let shuffled = Deck::new().shuffle();
    assert_eq!(shuffled.size(), 52);
    let mut plain: Vec<i32> = deck
        .cards
        .iter()
        .map(|c| c.suit().as_order() as i32 * 13 + c.rank().as_i32())
        .collect();
    let mut mixed: Vec<i32> = shuffled
        .cards
        .iter()
        .map(|c| c.suit().as_order() as i32 * 13 + c.rank().as_i32())
        .collect();
    plain.sort();
    mixed.sort();
    assert_eq!(plain, mixed);
}
