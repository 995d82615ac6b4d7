use hokm::cards::card::{Card, Rank, Suit};
use hokm::cards::hand::Hand;
use hokm::game::player::{Player, PlayerNumber};
use hokm::game::trick::Trick;
use hokm::players::random::RandomPlayer;
use hokm::players::sensible::SensiblePlayer;

fn hand_of(cards: &[(Rank, Suit)]) -> Hand {
    let mut h = Hand::new();
    for (r, s) in cards {
        h.cards.push(Card::new(*r, *s));
    }
    h
}

fn led_by_one(cards: &[(Rank, Suit)]) -> Trick {
    let mut t = Trick::new(PlayerNumber::One);
    for (i, (r, s)) in cards.iter().enumerate() {
        t.played_cards[i] = Some(Card::new(*r, *s));
    }
    t
}

#[test]
fn player_names() {
    assert_eq!(RandomPlayer.name(), "Random");
    assert_eq!(SensiblePlayer::new().name(), "Sensible");
}

#[test]
fn trump_call_prefers_a_long_suit() {
    let mut p = SensiblePlayer::new();
    let h = hand_of(&[
        (Rank::Two, Suit::Clubs),
        (Rank::Five, Suit::Clubs),
        (Rank::Nine, Suit::Clubs),
        (Rank::Ace, Suit::Diamonds),
        (Rank::King, Suit::Spades),
    ]);
    assert_eq!(p.call_trump_suit(&h), Suit::Clubs);
}

#[test]
fn trump_call_falls_back_to_the_best_card() {
    let mut p = SensiblePlayer::new();
    let h = hand_of(&[
        (Rank::Two, Suit::Clubs),
        (Rank::Five, Suit::Clubs),
        (Rank::Ace, Suit::Diamonds),
        (Rank::Three, Suit::Spades),
        (Rank::Four, Suit::Hearts),
    ]);
    assert_eq!(p.call_trump_suit(&h), Suit::Diamonds);
}

#[test]
fn trump_call_breaks_rank_ties_by_scan_order() {
    let mut p = SensiblePlayer::new();
    // Two suits tie at the top rank: the scan order Hearts, Clubs,
    // Diamonds, Spades keeps the first.
    let h = hand_of(&[(Rank::King, Suit::Spades), (Rank::King, Suit::Hearts)]);
    assert_eq!(p.call_trump_suit(&h), Suit::Hearts);
    let h2 = hand_of(&[
        (Rank::Ace, Suit::Spades),
        (Rank::Ace, Suit::Diamonds),
        (Rank::Two, Suit::Hearts),
    ]);
    assert_eq!(p.call_trump_suit(&h2), Suit::Diamonds);
}

#[test]
fn trump_call_with_only_weak_cards_keeps_the_longest_suit() {
    let mut p = SensiblePlayer::new();
    let h = hand_of(&[
        (Rank::Two, Suit::Diamonds),
        (Rank::Five, Suit::Diamonds),
        (Rank::Three, Suit::Spades),
        (Rank::Four, Suit::Hearts),
    ]);
    assert_eq!(p.call_trump_suit(&h), Suit::Diamonds);
}

#[test]
fn trump_call_on_an_empty_hand_defaults_to_hearts() {
    let mut p = SensiblePlayer::new();
    assert_eq!(p.call_trump_suit(&Hand::new()), Suit::Hearts);
}

#[test]
fn leads_with_its_strongest_card() {
    let p = SensiblePlayer::new();
    let h = hand_of(&[
        (Rank::Two, Suit::Clubs),
        (Rank::King, Suit::Diamonds),
        (Rank::Nine, Suit::Spades),
    ]);
    let t = Trick::new(PlayerNumber::One);
    assert_eq!(
        p.play(&h, Suit::Hearts, &t),
        Card::new(Rank::King, Suit::Diamonds)
    );
}

#[test]
fn second_seat_tops_the_lead_when_it_can() {
    let p = SensiblePlayer::new();
    let h = hand_of(&[
        (Rank::King, Suit::Spades),
        (Rank::Two, Suit::Spades),
        (Rank::Five, Suit::Hearts),
    ]);
    let t = led_by_one(&[(Rank::Nine, Suit::Spades)]);
    assert_eq!(
        p.play(&h, Suit::Hearts, &t),
        Card::new(Rank::King, Suit::Spades)
    );
}

#[test]
fn second_seat_ducks_when_it_cannot_win() {
    let p = SensiblePlayer::new();
    let h = hand_of(&[
        (Rank::Seven, Suit::Spades),
        (Rank::Three, Suit::Spades),
        (Rank::Ace, Suit::Hearts),
    ]);
    let t = led_by_one(&[(Rank::Nine, Suit::Spades)]);
    assert_eq!(
        p.play(&h, Suit::Hearts, &t),
        Card::new(Rank::Three, Suit::Spades)
    );
}

#[test]
fn second_seat_spends_its_cheapest_trump_when_free() {
    let p = SensiblePlayer::new();
    let h = hand_of(&[
        (Rank::Ace, Suit::Hearts),
        (Rank::Four, Suit::Hearts),
        (Rank::King, Suit::Diamonds),
    ]);
    let t = led_by_one(&[(Rank::Nine, Suit::Spades)]);
    assert_eq!(
        p.play(&h, Suit::Hearts, &t),
        Card::new(Rank::Four, Suit::Hearts)
    );
}

#[test]
fn second_seat_discards_lowest_without_trump() {
    let p = SensiblePlayer::new();
    let h = hand_of(&[
        (Rank::Ace, Suit::Diamonds),
        (Rank::Two, Suit::Clubs),
        (Rank::King, Suit::Diamonds),
    ]);
    let t = led_by_one(&[(Rank::Nine, Suit::Spades)]);
    assert_eq!(
        p.play(&h, Suit::Hearts, &t),
        Card::new(Rank::Two, Suit::Clubs)
    );
}

#[test]
fn third_seat_saves_strength_behind_a_winning_partner() {
    let p = SensiblePlayer::new();
    let h = hand_of(&[
        (Rank::King, Suit::Spades),
        (Rank::Four, Suit::Spades),
        (Rank::Ace, Suit::Hearts),
    ]);
    // Partner led the Queen of Spades, the right opponent ducked with a 3.
    let t = led_by_one(&[(Rank::Queen, Suit::Spades), (Rank::Three, Suit::Spades)]);
    assert_eq!(
        p.play(&h, Suit::Hearts, &t),
        Card::new(Rank::Four, Suit::Spades)
    );
}

#[test]
fn last_seat_trumps_as_cheaply_as_possible() {
    let p = SensiblePlayer::new();
    let h = hand_of(&[
        (Rank::Ace, Suit::Hearts),
        (Rank::Six, Suit::Hearts),
        (Rank::Two, Suit::Hearts),
    ]);
    // Led 9 of Spades, partner's 4 of Spades is losing, right played the
    // Jack of Spades; the 2 of Hearts already beats both opponents.
    let t = led_by_one(&[
        (Rank::Nine, Suit::Spades),
        (Rank::Four, Suit::Spades),
        (Rank::Jack, Suit::Spades),
    ]);
    assert_eq!(
        p.play(&h, Suit::Hearts, &t),
        Card::new(Rank::Two, Suit::Hearts)
    );
}

#[test]
fn trick_end_commits_all_four_cards_to_memory() {
    let mut p = SensiblePlayer::new();
    let t = led_by_one(&[
        (Rank::Nine, Suit::Spades),
        (Rank::Four, Suit::Spades),
        (Rank::Jack, Suit::Spades),
        (Rank::Ace, Suit::Clubs),
    ]);
    p.trick_end(&t);
    assert_eq!(p.played_cards.len(), 4);
    assert!(p.played_cards.contains(&Card::new(Rank::Ace, Suit::Clubs)));
    // A new game starts with a clean memory.
    p.call_trump_suit(&Hand::new());
    assert_eq!(p.played_cards.len(), 0);
}
