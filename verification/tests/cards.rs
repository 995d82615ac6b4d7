use hokm::cards::card::{Card, Rank, Suit};
use hokm::cards::deck::Deck;
use hokm::cards::hand::Hand;
use hokm::game::player::PlayerNumber;

#[test]
fn suits_and_ranks_enumerate_completely() {
    assert_eq!(Suit::all_suits().len(), 4);
    assert_eq!(Rank::all_ranks().len(), 13);
    assert_eq!(Rank::Two.as_i32(), 2);
    assert_eq!(Rank::Ten.as_i32(), 10);
    assert_eq!(Rank::Ace.as_i32(), 14);
    for x in 0..4u8 {
        assert_eq!(Suit::from_u8(x).as_order(), x);
    }
    for x in 2..15u8 {
        assert_eq!(Rank::from_u8(x).as_i32(), x as i32);
    }
}

#[test]
fn cards_carry_their_rank_and_suit() {
    let c = Card::new(Rank::Queen, Suit::Diamonds);
    assert_eq!(c.rank(), Rank::Queen);
    assert_eq!(c.suit(), Suit::Diamonds);
    assert_eq!(c, Card::new(Rank::Queen, Suit::Diamonds));
    assert_ne!(c, Card::new(Rank::Queen, Suit::Clubs));
}

#[test]
fn a_fresh_deck_deals_52_distinct_cards() {
    let mut deck = Deck::new();
    assert_eq!(deck.size(), 52);
    assert!(!deck.is_empty());
    let mut seen = Vec::new();
    while let Some(c) = deck.draw_card() {
        assert!(!seen.contains(&c));
        seen.push(c);
    }
    assert_eq!(seen.len(), 52);
    assert!(deck.is_empty());
}

#[test]
fn drawing_takes_cards_off_the_top() {
    let mut deck = Deck::new();
    let drawn = deck.draw_multiple_cards(5);
    assert_eq!(drawn.len(), 5);
    assert_eq!(deck.size(), 47);
    let rest = deck.draw_multiple_cards(100);
    assert_eq!(rest.len(), 47);
    assert_eq!(deck.size(), 0);
    assert_eq!(deck.draw_multiple_cards(3).len(), 0);
}

#[test]
fn hands_combine_sort_and_answer_suit_queries() {
    let mut deck = Deck::new();
    let mut hand = Hand::draw_from_deck(&mut deck, 6);
    assert_eq!(hand.cards.len(), 6);
    let more = Hand::draw_from_deck(&mut deck, 3);
    hand.combine(more);
    assert_eq!(hand.cards.len(), 9);
    hand.sort();
    for w in hand.cards.windows(2) {
        let a = w[0].suit().as_order() as i32 * 13 + w[0].rank().as_i32();
        let b = w[1].suit().as_order() as i32 * 13 + w[1].rank().as_i32();
        assert!(a <= b);
    }

    let mut h = Hand::new();
    h.cards.push(Card::new(Rank::Two, Suit::Clubs));
    h.cards.push(Card::new(Rank::Nine, Suit::Clubs));
    h.cards.push(Card::new(Rank::Ace, Suit::Spades));
    assert_eq!(h.count_of_suit(Suit::Clubs), 2);
    assert_eq!(h.count_of_suit(Suit::Hearts), 0);
    assert_eq!(h.cards_of_suit(Suit::Clubs).len(), 2);
    assert_eq!(
        h.highest_rank_card(Suit::Clubs),
        Some(Card::new(Rank::Nine, Suit::Clubs))
    );
    assert_eq!(h.highest_rank_card(Suit::Hearts), None);
}

#[test]
fn seats_cycle_and_index_both_ways() {
    let mut p = PlayerNumber::Three;
    p.increment();
    assert_eq!(p, PlayerNumber::Four);
    p.increment();
    assert_eq!(p, PlayerNumber::One);
    assert_eq!(PlayerNumber::One.as_index(), 0);
    assert_eq!(PlayerNumber::Four.as_index(), 3);
    for i in 0..4 {
        assert_eq!(PlayerNumber::from_index(i).as_index(), i);
    }
}
