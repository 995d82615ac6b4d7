use vstd::prelude::*;

use crate::cards::card::{Card, Suit};
use crate::cards::hand::{has_suit, suit_cards, Hand};
use crate::game::player::Player;
use crate::game::trick::Trick;

verus! {

/// Does `c1` beat `c2`? Within one suit the higher rank wins; trump beats
/// any non-trump; between different non-trump suits only the led suit wins.
pub open spec fn spec_beats(c1: Card, c2: Card, trump: Suit, first: Suit) -> bool {
    if c1.suit == c2.suit {
        c1.rank.value() > c2.rank.value()
    } else if c1.suit == trump {
        true
    } else if c2.suit == trump {
        false
    } else {
        c1.suit == first
    }
}

/// `c` is a held card of suit `s` with the highest rank among them.
pub open spec fn is_highest_of_suit(hand: Seq<Card>, s: Suit, c: Card) -> bool {
    &&& hand.contains(c)
    &&& c.suit == s
    &&& forall|i: int|
        0 <= i < hand.len() && (#[trigger] hand[i]).suit == s ==> hand[i].rank.value()
            <= c.rank.value()
}

/// `c` is a held card of suit `s` with the lowest rank among them.
pub open spec fn is_lowest_of_suit(hand: Seq<Card>, s: Suit, c: Card) -> bool {
    &&& hand.contains(c)
    &&& c.suit == s
    &&& forall|i: int|
        0 <= i < hand.len() && (#[trigger] hand[i]).suit == s ==> hand[i].rank.value()
            >= c.rank.value()
}

/// `c` is a held card with the lowest rank in the whole hand.
pub open spec fn is_lowest_overall(hand: Seq<Card>, c: Card) -> bool {
    &&& hand.contains(c)
    &&& forall|i: int| 0 <= i < hand.len() ==> (#[trigger] hand[i]).rank.value() >= c.rank.value()
}

/// The throw-away choice when the trick is already safe: the lowest-ranked
/// non-trump card if one is held, else the lowest card overall.
pub open spec fn discard_ok(hand: Seq<Card>, trump: Suit, c: Card) -> bool {
    if exists|i: int| 0 <= i < hand.len() && (#[trigger] hand[i]).suit != trump {
        &&& hand.contains(c)
        &&& c.suit != trump
        &&& forall|i: int|
            0 <= i < hand.len() && (#[trigger] hand[i]).suit != trump ==> hand[i].rank.value()
                >= c.rank.value()
    } else {
        is_lowest_overall(hand, c)
    }
}

/// `c` is the cheapest held trump that beats `right`.
pub open spec fn is_min_trump_beating(
    hand: Seq<Card>,
    trump: Suit,
    right: Card,
    first: Suit,
    c: Card,
) -> bool {
    &&& hand.contains(c)
    &&& c.suit == trump
    &&& spec_beats(c, right, trump, first)
    &&& forall|i: int|
        0 <= i < hand.len() && (#[trigger] hand[i]).suit == trump && spec_beats(
            hand[i],
            right,
            trump,
            first,
        ) ==> hand[i].rank.value() >= c.rank.value()
}

/// `c` is the cheapest held trump that beats both `left` and `right`.
pub open spec fn is_min_trump_beating_both(
    hand: Seq<Card>,
    trump: Suit,
    left: Card,
    right: Card,
    first: Suit,
    c: Card,
) -> bool {
    &&& hand.contains(c)
    &&& c.suit == trump
    &&& spec_beats(c, left, trump, first)
    &&& spec_beats(c, right, trump, first)
    &&& forall|i: int|
        0 <= i < hand.len() && (#[trigger] hand[i]).suit == trump && spec_beats(
            hand[i],
            left,
            trump,
            first,
        ) && spec_beats(hand[i], right, trump, first) ==> hand[i].rank.value() >= c.rank.value()
}

/// Does `c1` beat `c2`? Executable form of `spec_beats`.
fn beats(c1: Card, c2: Card, trump_suit: Suit, first_suit: Suit) -> (r: bool)
    ensures
        r == spec_beats(c1, c2, trump_suit, first_suit),
{
    if c1.suit() == c2.suit() {
        return c1.rank().as_i32() > c2.rank().as_i32();
    }
    if c1.suit() == trump_suit {
        return true;
    }
    if c2.suit() == trump_suit {
        return false;
    }
    c1.suit() == first_suit
}

/// Does `c` beat every card of `targets`?
pub open spec fn spec_beats_seq(c: Card, targets: Seq<Card>, trump: Suit, first: Suit) -> bool {
    forall|j: int| 0 <= j < targets.len() ==> spec_beats(c, #[trigger] targets[j], trump, first)
}

/// Does `c` beat every card of `cards`?
fn beats_all(c: Card, cards: &Vec<Card>, trump_suit: Suit, first_suit: Suit) -> (r: bool)
    ensures
        r == spec_beats_seq(c, cards@, trump_suit, first_suit),
{
    let mut b = true;
    let mut i: usize = 0;
    while i < cards.len()
        invariant
            i <= cards@.len(),
            b == forall|k: int|
                0 <= k < i ==> spec_beats(c, #[trigger] cards@[k], trump_suit, first_suit),
        decreases cards@.len() - i,
    {
        b = b && beats(c, cards[i], trump_suit, first_suit);
        i += 1;
    }
    b
}

/// The cards that may legally be played against a trick led with
/// `first_card`: the held cards of the led suit, or, when none is held, the
/// whole hand (the flag reports the latter case).
fn legal_plays(hand: &Hand, first_card: Card) -> (r: (Vec<Card>, bool))
    ensures
        r.1 == !has_suit(hand.cards@, first_card.suit),
        !r.1 ==> r.0@ == suit_cards(hand.cards@, first_card.suit),
        r.1 ==> r.0@ == hand.cards@,
        forall|k: int| 0 <= k < r.0@.len() ==> hand.cards@.contains(#[trigger] r.0@[k]),
        !r.1 ==> forall|k: int| 0 <= k < r.0@.len() ==> (#[trigger] r.0@[k]).suit
            == first_card.suit,
        !r.1 ==> forall|i: int|
            0 <= i < hand.cards@.len() && (#[trigger] hand.cards@[i]).suit == first_card.suit
                ==> r.0@.contains(hand.cards@[i]),
        r.0@.len() > 0 || hand.cards@.len() == 0,
{
    let same_suit = hand.cards_of_suit(first_card.suit());
    if !same_suit.is_empty() {
        proof {
            assert(has_suit(hand.cards@, first_card.suit)) by {
                assert(hand.cards@.contains(same_suit@[0]));
                let w = choose|w: int|
                    0 <= w < hand.cards@.len() && hand.cards@[w] == same_suit@[0];
                assert(hand.cards@[w].suit == first_card.suit);
            }
        }
        return (same_suit, false);
    }
    proof {
        assert(!has_suit(hand.cards@, first_card.suit)) by {
            if has_suit(hand.cards@, first_card.suit) {
                let w = choose|w: int|
                    0 <= w < hand.cards@.len() && hand.cards@[w].suit == first_card.suit;
                assert(same_suit@.contains(hand.cards@[w]));
            }
        }
        assert(forall|k: int|
            0 <= k < hand.cards@.len() ==> hand.cards@.contains(#[trigger] hand.cards@[k]));
    }
    (copy_cards(&hand.cards), true)
}

/// A fresh vector holding the same cards.
fn copy_cards(v: &Vec<Card>) -> (r: Vec<Card>)
    ensures
        r@ == v@,
{
    let mut r: Vec<Card> = Vec::new();
    let mut i: usize = 0;
    while i < v.len()
        invariant
            i <= v@.len(),
            r@ == v@.subrange(0, i as int),
        decreases v@.len() - i,
    {
        let c = v[i];
        r.push(c);
        proof {
            assert(r@ =~= v@.subrange(0, i + 1));
        }
        i += 1;
    }
    proof {
        assert(r@ =~= v@);
    }
    r
}

/// The first card of minimal rank in `v`.
fn lowest_by_rank(v: &Vec<Card>) -> (c: Card)
    requires
        v@.len() > 0,
    ensures
        v@.contains(c),
        forall|i: int| 0 <= i < v@.len() ==> (#[trigger] v@[i]).rank.value() >= c.rank.value(),
{
    let mut best = v[0];
    let mut i: usize = 1;
    proof {
        assert(v@.contains(v@[0]));
    }
    while i < v.len()
        invariant
            1 <= i <= v@.len(),
            v@.contains(best),
            forall|k: int| 0 <= k < i ==> (#[trigger] v@[k]).rank.value() >= best.rank.value(),
        decreases v@.len() - i,
    {
        let c = v[i];
        if c.rank().as_i32() < best.rank().as_i32() {
            best = c;
            proof {
                assert(v@.contains(v@[i as int]));
            }
        }
        i += 1;
    }
    best
}

/// The first card of maximal rank in `v`.
fn highest_by_rank(v: &Vec<Card>) -> (c: Card)
    requires
        v@.len() > 0,
    ensures
        v@.contains(c),
        forall|i: int| 0 <= i < v@.len() ==> (#[trigger] v@[i]).rank.value() <= c.rank.value(),
{
    let mut best = v[0];
    let mut i: usize = 1;
    proof {
        assert(v@.contains(v@[0]));
    }
    while i < v.len()
        invariant
            1 <= i <= v@.len(),
            v@.contains(best),
            forall|k: int| 0 <= k < i ==> (#[trigger] v@[k]).rank.value() <= best.rank.value(),
        decreases v@.len() - i,
    {
        let c = v[i];
        if c.rank().as_i32() > best.rank().as_i32() {
            best = c;
            proof {
                assert(v@.contains(v@[i as int]));
            }
        }
        i += 1;
    }
    best
}

/// The throw-away card when the trick needs no strength: the lowest
/// non-trump card if any, else the lowest card overall.
fn discard_lowest(hand: &Hand, trump_suit: Suit) -> (c: Card)
    requires
        hand.cards@.len() > 0,
    ensures
        discard_ok(hand.cards@, trump_suit, c),
        hand.cards@.contains(c),
{
    let mut best: Option<Card> = None;
    let mut i: usize = 0;
    while i < hand.cards.len()
        invariant
            i <= hand.cards@.len(),
            best is Some <==> exists|k: int|
                0 <= k < i && (#[trigger] hand.cards@[k]).suit != trump_suit,
            best matches Some(b) ==> hand.cards@.contains(b) && b.suit != trump_suit && forall|
                k: int,
            |
                0 <= k < i && (#[trigger] hand.cards@[k]).suit != trump_suit
                    ==> hand.cards@[k].rank.value() >= b.rank.value(),
        decreases hand.cards@.len() - i,
    {
        let c = hand.cards[i];
        if c.suit() != trump_suit {
            match best {
                Some(b) => {
                    if c.rank().as_i32() < b.rank().as_i32() {
                        best = Some(c);
                        proof {
                            assert(hand.cards@.contains(hand.cards@[i as int]));
                        }
                    }
                },
                None => {
                    best = Some(c);
                    proof {
                        assert(hand.cards@.contains(hand.cards@[i as int]));
                    }
                },
            }
        }
        i += 1;
    }
    match best {
        Some(b) => b,
        None => lowest_by_rank(&hand.cards),
    }
}

/// The cheapest of `cands` that beats every card in `targets`, if any does.
fn min_beating_all(cands: &Vec<Card>, targets: &Vec<Card>, trump_suit: Suit, first_suit: Suit) -> (r:
    Option<Card>)
    ensures
        r is Some <==> exists|i: int|
            0 <= i < cands@.len() && spec_beats_seq(
                #[trigger] cands@[i],
                targets@,
                trump_suit,
                first_suit,
            ),
        r matches Some(c) ==> cands@.contains(c) && spec_beats_seq(
            c,
            targets@,
            trump_suit,
            first_suit,
        ) && (forall|i: int|
            0 <= i < cands@.len() && spec_beats_seq(
                #[trigger] cands@[i],
                targets@,
                trump_suit,
                first_suit,
            ) ==> cands@[i].rank.value() >= c.rank.value()),
{
    let mut best: Option<Card> = None;
    let mut i: usize = 0;
    while i < cands.len()
        invariant
            i <= cands@.len(),
            best is Some <==> exists|k: int|
                0 <= k < i && spec_beats_seq(
                    #[trigger] cands@[k],
                    targets@,
                    trump_suit,
                    first_suit,
                ),
            best matches Some(b) ==> cands@.contains(b) && spec_beats_seq(
                b,
                targets@,
                trump_suit,
                first_suit,
            ) && (forall|k: int|
                0 <= k < i && spec_beats_seq(
                    #[trigger] cands@[k],
                    targets@,
                    trump_suit,
                    first_suit,
                ) ==> cands@[k].rank.value() >= b.rank.value()),
        decreases cands@.len() - i,
    {
        let c = cands[i];
        let wins = beats_all(c, targets, trump_suit, first_suit);
        if wins {
            match best {
                Some(b) => {
                    if c.rank().as_i32() < b.rank().as_i32() {
                        best = Some(c);
                        proof {
                            assert(cands@.contains(cands@[i as int]));
                        }
                    }
                },
                None => {
                    best = Some(c);
                    proof {
                        assert(cands@.contains(cands@[i as int]));
                    }
                },
            }
        }
        i += 1;
    }
    best
}

/// Beating is monotone in rank within one suit: if `a` beats `x`, so does
/// any same-suit card of at least `a`'s rank.
proof fn lemma_beats_monotone(a: Card, b: Card, x: Card, trump: Suit, first: Suit)
    requires
        a.suit == b.suit,
        a.rank.value() <= b.rank.value(),
        spec_beats(a, x, trump, first),
    ensures
        spec_beats(b, x, trump, first),
{
}

/// A minimal card of the extracted `s`-suited cards is a minimal `s`-suited
/// card of the hand itself.
proof fn lemma_min_over_suit(hand: Seq<Card>, v: Seq<Card>, s: Suit, c: Card)
    requires
        forall|k: int| 0 <= k < v.len() ==> hand.contains(#[trigger] v[k]) && v[k].suit == s,
        forall|i: int|
            0 <= i < hand.len() && (#[trigger] hand[i]).suit == s ==> v.contains(hand[i]),
        v.contains(c),
        forall|k: int| 0 <= k < v.len() ==> (#[trigger] v[k]).rank.value() >= c.rank.value(),
    ensures
        is_lowest_of_suit(hand, s, c),
{
    let kc = choose|k: int| 0 <= k < v.len() && v[k] == c;
    assert(hand.contains(c));
    assert forall|i: int|
        0 <= i < hand.len() && (#[trigger] hand[i]).suit == s implies hand[i].rank.value()
        >= c.rank.value() by {
        let k = choose|k: int| 0 <= k < v.len() && v[k] == hand[i];
    }
}

/// A maximal card of the extracted `s`-suited cards is a maximal `s`-suited
/// card of the hand itself.
proof fn lemma_max_over_suit(hand: Seq<Card>, v: Seq<Card>, s: Suit, c: Card)
    requires
        forall|k: int| 0 <= k < v.len() ==> hand.contains(#[trigger] v[k]) && v[k].suit == s,
        forall|i: int|
            0 <= i < hand.len() && (#[trigger] hand[i]).suit == s ==> v.contains(hand[i]),
        v.contains(c),
        forall|k: int| 0 <= k < v.len() ==> (#[trigger] v[k]).rank.value() <= c.rank.value(),
    ensures
        is_highest_of_suit(hand, s, c),
{
    let kc = choose|k: int| 0 <= k < v.len() && v[k] == c;
    assert(hand.contains(c));
    assert forall|i: int|
        0 <= i < hand.len() && (#[trigger] hand[i]).suit == s implies hand[i].rank.value()
        <= c.rank.value() by {
        let k = choose|k: int| 0 <= k < v.len() && v[k] == hand[i];
    }
}

/// What the second seat plays against `right` (the leader's card). When it
/// must follow suit: the strongest matching card if that wins, else the
/// weakest. When free: the cheapest trump if any is held, else the lowest
/// card in the whole hand.
pub open spec fn spec_play_second(hand: Seq<Card>, trump: Suit, right: Card, c: Card) -> bool {
    let fs = right.suit;
    if has_suit(hand, fs) {
        if exists|i: int|
            0 <= i < hand.len() && (#[trigger] hand[i]).suit == fs && spec_beats(
                hand[i],
                right,
                trump,
                fs,
            ) {
            is_highest_of_suit(hand, fs, c) && spec_beats(c, right, trump, fs)
        } else {
            is_lowest_of_suit(hand, fs, c)
        }
    } else if !has_suit(hand, trump) {
        is_lowest_overall(hand, c)
    } else {
        is_lowest_of_suit(hand, trump, c)
    }
}

/// What the third seat plays, knowing the partner led `across` and `right`
/// answered. If the partner's card already wins, spend as little as
/// possible; else win with the strongest follow or the cheapest trump that
/// beats `right`; else throw the cheapest card away, sparing trumps.
pub open spec fn spec_play_third(
    hand: Seq<Card>,
    trump: Suit,
    across: Card,
    right: Card,
    c: Card,
) -> bool {
    let fs = across.suit;
    let tb = spec_beats(across, right, trump, fs);
    if has_suit(hand, fs) {
        if tb {
            is_lowest_of_suit(hand, fs, c)
        } else if exists|i: int|
            0 <= i < hand.len() && (#[trigger] hand[i]).suit == fs && spec_beats(
                hand[i],
                right,
                trump,
                fs,
            ) {
            is_highest_of_suit(hand, fs, c) && spec_beats(c, right, trump, fs)
        } else {
            is_lowest_of_suit(hand, fs, c)
        }
    } else if tb {
        discard_ok(hand, trump, c)
    } else if !has_suit(hand, trump) {
        is_lowest_overall(hand, c)
    } else if exists|i: int|
        0 <= i < hand.len() && (#[trigger] hand[i]).suit == trump && spec_beats(
            hand[i],
            right,
            trump,
            fs,
        ) {
        is_min_trump_beating(hand, trump, right, fs, c)
    } else {
        discard_ok(hand, trump, c)
    }
}

/// What the last seat plays, with `left` led, partner's `across`, and
/// `right` on the table: as the third seat, but the partner must beat both
/// opponents, and a winning trump must beat both as well.
pub open spec fn spec_play_last(
    hand: Seq<Card>,
    trump: Suit,
    left: Card,
    across: Card,
    right: Card,
    c: Card,
) -> bool {
    let fs = left.suit;
    let tb = spec_beats(across, left, trump, fs) && spec_beats(across, right, trump, fs);
    if has_suit(hand, fs) {
        if tb {
            is_lowest_of_suit(hand, fs, c)
        } else if exists|i: int|
            0 <= i < hand.len() && (#[trigger] hand[i]).suit == fs && spec_beats(
                hand[i],
                left,
                trump,
                fs,
            ) && spec_beats(hand[i], right, trump, fs) {
            is_highest_of_suit(hand, fs, c) && spec_beats(c, left, trump, fs) && spec_beats(
                c,
                right,
                trump,
                fs,
            )
        } else {
            is_lowest_of_suit(hand, fs, c)
        }
    } else if tb {
        discard_ok(hand, trump, c)
    } else if !has_suit(hand, trump) {
        is_lowest_overall(hand, c)
    } else if exists|i: int|
        0 <= i < hand.len() && (#[trigger] hand[i]).suit == trump && spec_beats(
            hand[i],
            left,
            trump,
            fs,
        ) && spec_beats(hand[i], right, trump, fs) {
        is_min_trump_beating_both(hand, trump, left, right, fs, c)
    } else {
        discard_ok(hand, trump, c)
    }
}

/// The rule-based strategy. It remembers every card it has seen played in
/// the current game; the memory is cleared when a new game starts (at the
/// trump call) and fed by the end-of-trick notifications.
pub struct SensiblePlayer {
    pub played_cards: Vec<Card>,
}

impl SensiblePlayer {
    pub fn new() -> (p: Self)
        ensures
            p.played_cards@ == Seq::<Card>::empty(),
    {
        SensiblePlayer { played_cards: Vec::new() }
    }

    /// Forget the previous game's cards.
    fn restart(&mut self)
        ensures
            final(self).played_cards@ == Seq::<Card>::empty(),
    {
        self.played_cards.clear();
    }

    /// Note one more card as seen.
    fn mark_as_played(&mut self, card: Card)
        ensures
            final(self).played_cards@ == old(self).played_cards@.push(card),
    {
        self.played_cards.push(card);
    }

    /// Lead with the single strongest held card: for every suit take the
    /// highest held card, then the highest-ranked of those.
    fn play_first(&self, hand: &Hand, _trump_suit: Suit) -> (c: Card)
        requires
            hand.cards@.len() > 0,
        ensures
            hand.cards@.contains(c),
            forall|i: int|
                0 <= i < hand.cards@.len() ==> (#[trigger] hand.cards@[i]).rank.value()
                    <= c.rank.value(),
    {
        let h0 = hand.highest_rank_card(Suit::Hearts);
        let h1 = hand.highest_rank_card(Suit::Clubs);
        let h2 = hand.highest_rank_card(Suit::Diamonds);
        let h3 = hand.highest_rank_card(Suit::Spades);
        let mut best: Option<Card> = None;
        best = merge_highest(best, h0);
        best = merge_highest(best, h1);
        best = merge_highest(best, h2);
        best = merge_highest(best, h3);
        proof {
            assert forall|i: int|
                0 <= i < hand.cards@.len() implies exists|s: Suit|
                has_suit(hand.cards@, s) && (#[trigger] hand.cards@[i]).suit == s by {
                assert(has_suit(hand.cards@, hand.cards@[i].suit));
            }
            assert(has_suit(hand.cards@, hand.cards@[0].suit));
        }
        match best {
            Some(b) => {
                proof {
                    assert forall|i: int|
                        0 <= i < hand.cards@.len() implies (#[trigger] hand.cards@[i]).rank.value()
                        <= b.rank.value() by {
                        let ci = hand.cards@[i];
                        match ci.suit {
                            Suit::Hearts => {
                                assert(h0 matches Some(x) && ci.rank.value() <= x.rank.value());
                            },
                            Suit::Clubs => {
                                assert(h1 matches Some(x) && ci.rank.value() <= x.rank.value());
                            },
                            Suit::Diamonds => {
                                assert(h2 matches Some(x) && ci.rank.value() <= x.rank.value());
                            },
                            Suit::Spades => {
                                assert(h3 matches Some(x) && ci.rank.value() <= x.rank.value());
                            },
                        }
                    }
                }
                b
            },
            None => {
                proof {
                    let s0 = hand.cards@[0].suit;
                    assert(match s0 {
                        Suit::Hearts => h0 is Some,
                        Suit::Clubs => h1 is Some,
                        Suit::Diamonds => h2 is Some,
                        Suit::Spades => h3 is Some,
                    });
                    assert(false);
                }
                hand.cards[0]
            },
        }
    }

    /// Second to play; see `spec_play_second`.
    fn play_second(&self, hand: &Hand, trump_suit: Suit, right: Card) -> (c: Card)
        requires
            hand.cards@.len() > 0,
        ensures
            spec_play_second(hand.cards@, trump_suit, right, c),
            hand.cards@.contains(c),
            has_suit(hand.cards@, right.suit) ==> c.suit == right.suit,
    {
        let first_suit = right.suit();
        let (options, any_card) = legal_plays(hand, right);
        if !any_card {
            let highest = highest_by_rank(&options);
            proof {
                lemma_max_over_suit(hand.cards@, options@, first_suit, highest);
            }
            if beats(highest, right, trump_suit, first_suit) {
                proof {
                    let w = choose|w: int|
                        0 <= w < hand.cards@.len() && hand.cards@[w] == highest;
                }
                return highest;
            }
            let c = lowest_by_rank(&options);
            proof {
                lemma_min_over_suit(hand.cards@, options@, first_suit, c);
                // No follow card wins: any same-suit card is at most the
                // highest, which already fails to beat `right`.
                if exists|i: int|
                    0 <= i < hand.cards@.len() && (#[trigger] hand.cards@[i]).suit == first_suit
                        && spec_beats(hand.cards@[i], right, trump_suit, first_suit) {
                    let w = choose|w: int|
                        0 <= w < hand.cards@.len() && (#[trigger] hand.cards@[w]).suit
                            == first_suit && spec_beats(
                            hand.cards@[w],
                            right,
                            trump_suit,
                            first_suit,
                        );
                    lemma_beats_monotone(hand.cards@[w], highest, right, trump_suit, first_suit);
                }
            }
            return c;
        }
        if hand.count_of_suit(trump_suit) == 0 {
            return lowest_by_rank(&hand.cards);
        }
        let trump_cards = hand.cards_of_suit(trump_suit);
        let c = lowest_by_rank(&trump_cards);
        proof {
            lemma_min_over_suit(hand.cards@, trump_cards@, trump_suit, c);
        }
        c
    }

    /// Third to play; see `spec_play_third`.
    fn play_third(&self, hand: &Hand, trump_suit: Suit, across: Card, right: Card) -> (c: Card)
        requires
            hand.cards@.len() > 0,
        ensures
            spec_play_third(hand.cards@, trump_suit, across, right, c),
            hand.cards@.contains(c),
            has_suit(hand.cards@, across.suit) ==> c.suit == across.suit,
    {
        let first_suit = across.suit();
        let (options, any_card) = legal_plays(hand, across);
        let teammate_beats_right = beats(across, right, trump_suit, first_suit);
        if !any_card {
            if teammate_beats_right {
                // The partner already holds the trick: spend nothing.
                let c = lowest_by_rank(&options);
                proof {
                    lemma_min_over_suit(hand.cards@, options@, first_suit, c);
                }
                return c;
            }
            let highest = highest_by_rank(&options);
            proof {
                lemma_max_over_suit(hand.cards@, options@, first_suit, highest);
            }
            if beats(highest, right, trump_suit, first_suit) {
                return highest;
            }
            let c = lowest_by_rank(&options);
            proof {
                lemma_min_over_suit(hand.cards@, options@, first_suit, c);
                if exists|i: int|
                    0 <= i < hand.cards@.len() && (#[trigger] hand.cards@[i]).suit == first_suit
                        && spec_beats(hand.cards@[i], right, trump_suit, first_suit) {
                    let w = choose|w: int|
                        0 <= w < hand.cards@.len() && (#[trigger] hand.cards@[w]).suit
                            == first_suit && spec_beats(
                            hand.cards@[w],
                            right,
                            trump_suit,
                            first_suit,
                        );
                    lemma_beats_monotone(hand.cards@[w], highest, right, trump_suit, first_suit);
                }
            }
            return c;
        }
        if teammate_beats_right {
            return discard_lowest(hand, trump_suit);
        }
        let trump_cards = hand.cards_of_suit(trump_suit);
        if trump_cards.is_empty() {
            proof {
                assert(!has_suit(hand.cards@, trump_suit)) by {
                    if has_suit(hand.cards@, trump_suit) {
                        let w = choose|w: int|
                            0 <= w < hand.cards@.len() && hand.cards@[w].suit == trump_suit;
                        assert(trump_cards@.contains(hand.cards@[w]));
                    }
                }
            }
            return lowest_by_rank(&hand.cards);
        }
        // The cheapest trump that takes the trick back, if one exists.
        let mut targets: Vec<Card> = Vec::new();
        targets.push(right);
        let picked = min_beating_all(&trump_cards, &targets, trump_suit, first_suit);
        proof {
            assert(targets@ =~= seq![right]);
            assert forall|c0: Card|
                #[trigger] spec_beats_seq(c0, targets@, trump_suit, first_suit) == spec_beats(
                c0,
                right,
                trump_suit,
                first_suit,
            ) by {
                assert(targets@[0] == right);
                if spec_beats(c0, right, trump_suit, first_suit) {
                    assert forall|j: int| 0 <= j < targets@.len() implies spec_beats(
                        c0,
                        #[trigger] targets@[j],
                        trump_suit,
                        first_suit,
                    ) by {
                        assert(j == 0);
                    }
                }
            }
        }
        match picked {
            Some(c) => {
                proof {
                    let kc = choose|k: int| 0 <= k < trump_cards@.len() && trump_cards@[k] == c;
                    assert forall|i: int|
                        0 <= i < hand.cards@.len() && (#[trigger] hand.cards@[i]).suit
                            == trump_suit && spec_beats(
                        hand.cards@[i],
                        right,
                        trump_suit,
                        first_suit,
                    ) implies hand.cards@[i].rank.value() >= c.rank.value() by {
                        let k = choose|k: int|
                            0 <= k < trump_cards@.len() && trump_cards@[k] == hand.cards@[i];
                    }
                    assert(exists|i: int|
                        0 <= i < hand.cards@.len() && (#[trigger] hand.cards@[i]).suit
                            == trump_suit && spec_beats(
                            hand.cards@[i],
                            right,
                            trump_suit,
                            first_suit,
                        )) by {
                        let w = choose|w: int|
                            0 <= w < hand.cards@.len() && hand.cards@[w] == c;
                        assert(hand.cards@[w].suit == trump_suit && spec_beats(
                            hand.cards@[w],
                            right,
                            trump_suit,
                            first_suit,
                        ));
                    }
                }
                c
            },
            None => {
                proof {
                    if exists|i: int|
                        0 <= i < hand.cards@.len() && (#[trigger] hand.cards@[i]).suit
                            == trump_suit && spec_beats(
                        hand.cards@[i],
                        right,
                        trump_suit,
                        first_suit,
                    ) {
                        let w = choose|w: int|
                            0 <= w < hand.cards@.len() && (#[trigger] hand.cards@[w]).suit
                                == trump_suit && spec_beats(
                                hand.cards@[w],
                                right,
                                trump_suit,
                                first_suit,
                            );
                        let k = choose|k: int|
                            0 <= k < trump_cards@.len() && trump_cards@[k] == hand.cards@[w];
                        assert(spec_beats_seq(trump_cards@[k], targets@, trump_suit, first_suit));
                    }
                }
                discard_lowest(hand, trump_suit)
            },
        }
    }

    /// Last to play; see `spec_play_last`.
    fn play_last(&self, hand: &Hand, trump_suit: Suit, left: Card, across: Card, right: Card) -> (c:
        Card)
        requires
            hand.cards@.len() > 0,
        ensures
            spec_play_last(hand.cards@, trump_suit, left, across, right, c),
            hand.cards@.contains(c),
            has_suit(hand.cards@, left.suit) ==> c.suit == left.suit,
    {
        let first_suit = left.suit();
        let (options, any_card) = legal_plays(hand, left);
        let mut opponents: Vec<Card> = Vec::new();
        opponents.push(left);
        opponents.push(right);
        proof {
            assert(opponents@ =~= seq![left, right]);
            assert forall|c0: Card|
                #[trigger] spec_beats_seq(c0, opponents@, trump_suit, first_suit) == (spec_beats(
                c0,
                left,
                trump_suit,
                first_suit,
            ) && spec_beats(c0, right, trump_suit, first_suit)) by {
                assert(opponents@[0] == left && opponents@[1] == right);
                if spec_beats(c0, left, trump_suit, first_suit) && spec_beats(
                    c0,
                    right,
                    trump_suit,
                    first_suit,
                ) {
                    assert forall|j: int| 0 <= j < opponents@.len() implies spec_beats(
                        c0,
                        #[trigger] opponents@[j],
                        trump_suit,
                        first_suit,
                    ) by {
                        assert(j == 0 || j == 1);
                    }
                }
            }
        }
        let teammate_beats_both = beats_all(across, &opponents, trump_suit, first_suit);
        if !any_card {
            if teammate_beats_both {
                // The partner already beats both opponents: spend nothing.
                let c = lowest_by_rank(&options);
                proof {
                    lemma_min_over_suit(hand.cards@, options@, first_suit, c);
                }
                return c;
            }
            let highest = highest_by_rank(&options);
            proof {
                lemma_max_over_suit(hand.cards@, options@, first_suit, highest);
            }
            if beats_all(highest, &opponents, trump_suit, first_suit) {
                return highest;
            }
            let c = lowest_by_rank(&options);
            proof {
                lemma_min_over_suit(hand.cards@, options@, first_suit, c);
                if exists|i: int|
                    0 <= i < hand.cards@.len() && (#[trigger] hand.cards@[i]).suit == first_suit
                        && spec_beats(hand.cards@[i], left, trump_suit, first_suit) && spec_beats(
                        hand.cards@[i],
                        right,
                        trump_suit,
                        first_suit,
                    ) {
                    let w = choose|w: int|
                        0 <= w < hand.cards@.len() && (#[trigger] hand.cards@[w]).suit
                            == first_suit && spec_beats(hand.cards@[w], left, trump_suit, first_suit)
                            && spec_beats(hand.cards@[w], right, trump_suit, first_suit);
                    lemma_beats_monotone(hand.cards@[w], highest, left, trump_suit, first_suit);
                    lemma_beats_monotone(hand.cards@[w], highest, right, trump_suit, first_suit);
                }
            }
            return c;
        }
        if teammate_beats_both {
            return discard_lowest(hand, trump_suit);
        }
        let trump_cards = hand.cards_of_suit(trump_suit);
        if trump_cards.is_empty() {
            proof {
                assert(!has_suit(hand.cards@, trump_suit)) by {
                    if has_suit(hand.cards@, trump_suit) {
                        let w = choose|w: int|
                            0 <= w < hand.cards@.len() && hand.cards@[w].suit == trump_suit;
                        assert(trump_cards@.contains(hand.cards@[w]));
                    }
                }
            }
            return lowest_by_rank(&hand.cards);
        }
        // The cheapest trump that beats both opponents, if one exists.
        let picked = min_beating_all(&trump_cards, &opponents, trump_suit, first_suit);
        match picked {
            Some(c) => {
                proof {
                    let kc = choose|k: int| 0 <= k < trump_cards@.len() && trump_cards@[k] == c;
                    assert forall|i: int|
                        0 <= i < hand.cards@.len() && (#[trigger] hand.cards@[i]).suit
                            == trump_suit && spec_beats(hand.cards@[i], left, trump_suit, first_suit)
                            && spec_beats(
                        hand.cards@[i],
                        right,
                        trump_suit,
                        first_suit,
                    ) implies hand.cards@[i].rank.value() >= c.rank.value() by {
                        let k = choose|k: int|
                            0 <= k < trump_cards@.len() && trump_cards@[k] == hand.cards@[i];
                    }
                    assert(exists|i: int|
                        0 <= i < hand.cards@.len() && (#[trigger] hand.cards@[i]).suit
                            == trump_suit && spec_beats(
                            hand.cards@[i],
                            left,
                            trump_suit,
                            first_suit,
                        ) && spec_beats(hand.cards@[i], right, trump_suit, first_suit)) by {
                        let w = choose|w: int|
                            0 <= w < hand.cards@.len() && hand.cards@[w] == c;
                        assert(hand.cards@[w].suit == trump_suit && spec_beats(
                            hand.cards@[w],
                            left,
                            trump_suit,
                            first_suit,
                        ) && spec_beats(hand.cards@[w], right, trump_suit, first_suit));
                    }
                }
                c
            },
            None => {
                proof {
                    if exists|i: int|
                        0 <= i < hand.cards@.len() && (#[trigger] hand.cards@[i]).suit
                            == trump_suit && spec_beats(hand.cards@[i], left, trump_suit, first_suit)
                            && spec_beats(
                        hand.cards@[i],
                        right,
                        trump_suit,
                        first_suit,
                    ) {
                        let w = choose|w: int|
                            0 <= w < hand.cards@.len() && (#[trigger] hand.cards@[w]).suit
                                == trump_suit && spec_beats(
                                hand.cards@[w],
                                left,
                                trump_suit,
                                first_suit,
                            ) && spec_beats(hand.cards@[w], right, trump_suit, first_suit);
                        let k = choose|k: int|
                            0 <= k < trump_cards@.len() && trump_cards@[k] == hand.cards@[w];
                        assert(spec_beats_seq(trump_cards@[k], opponents@, trump_suit, first_suit));
                    }
                }
                discard_lowest(hand, trump_suit)
            },
        }
    }
}

/// How many cards of suit `s` the hand holds.
pub open spec fn count_suit(h: Seq<Card>, s: Suit) -> int {
    suit_cards(h, s).len() as int
}

/// `r` holds the most cards, and is the first such suit in the fixed scan
/// order.
pub open spec fn is_first_max_count_suit(h: Seq<Card>, r: Suit) -> bool {
    &&& forall|s: Suit| #[trigger] count_suit(h, s) <= count_suit(h, r)
    &&& forall|s: Suit| s.order() < r.order() ==> #[trigger] count_suit(h, s) < count_suit(h, r)
}

/// `r` is the suit of a held card whose rank no held card exceeds: the
/// suit of the single highest-ranked card in the hand.
pub open spec fn is_highest_card_suit(h: Seq<Card>, r: Suit) -> bool {
    exists|i: int|
        0 <= i < h.len() && (#[trigger] h[i]).suit == r && (forall|j: int|
            0 <= j < h.len() ==> (#[trigger] h[j]).rank.value() <= h[i].rank.value())
}

/// `r` is the suit of the single highest-ranked held card, and the first
/// such suit in the fixed scan order when several suits tie at that rank.
pub open spec fn is_first_highest_card_suit(h: Seq<Card>, r: Suit) -> bool {
    &&& is_highest_card_suit(h, r)
    &&& forall|s: Suit| s.order() < r.order() ==> !(#[trigger] is_highest_card_suit(h, s))
}

impl Player for SensiblePlayer {
    fn name(&self) -> (r: String) {
        "Sensible".to_owned()
    }

    /// Choose the trump suit, and start a fresh memory for the new game.
    /// The suit with at least three held cards and the highest such count
    /// wins; failing that, the suit of the single best held card, if that
    /// card is a Ten or better; failing that, the best-count suit again
    /// (Hearts for an empty hand). Scanning ties keep the earliest suit.
    fn call_trump_suit(&mut self, hand: &Hand) -> (r: Suit)
        ensures
            final(self).played_cards@ == Seq::<Card>::empty(),
            (exists|s: Suit| #[trigger] count_suit(hand.cards@, s) >= 3)
                ==> is_first_max_count_suit(hand.cards@, r) && count_suit(hand.cards@, r) >= 3,
            ((forall|s: Suit| #[trigger] count_suit(hand.cards@, s) < 3) && (exists|i: int|
                0 <= i < hand.cards@.len() && (#[trigger] hand.cards@[i]).rank.value() >= 10))
                ==> is_first_highest_card_suit(hand.cards@, r),
            ((forall|s: Suit| #[trigger] count_suit(hand.cards@, s) < 3) && (forall|i: int|
                0 <= i < hand.cards@.len() ==> (#[trigger] hand.cards@[i]).rank.value() < 10))
                ==> is_first_max_count_suit(hand.cards@, r),
    {
        self.restart();
        let (bc_suit, bc_count) = best_count_suit_of(hand);
        let bh = best_high_card_of(hand);
        if bc_count >= 3 {
            return bc_suit;
        }
        proof {
            assert forall|s: Suit| #[trigger] count_suit(hand.cards@, s) < 3 by {
                assert(count_suit(hand.cards@, s) <= count_suit(hand.cards@, bc_suit));
            }
        }
        match bh {
            Some(b) => {
                if b.rank().as_i32() >= 10 {
                    proof {
                        let w = choose|w: int|
                            0 <= w < hand.cards@.len() && hand.cards@[w] == b;
                    }
                    return b.suit();
                }
                bc_suit
            },
            None => bc_suit,
        }
    }

    /// Whatever the position, the card chosen by the strategy is legal:
    /// held, and following the led suit whenever the hand can. Beyond that,
    /// the choice follows the positional policy for however many cards are
    /// already on the table: the strongest held card to lead, and the
    /// second, third and last seats' rules as specified.
    fn play(&self, hand: &Hand, trump_suit: Suit, trick: &Trick) -> (c: Card)
        ensures
            crate::game::hokm::legal_choice(hand.cards@, *trick, c),
            trick.slot_in_order(0) is None ==> hand.cards@.contains(c) && (forall|i: int|
                0 <= i < hand.cards@.len() ==> (#[trigger] hand.cards@[i]).rank.value()
                    <= c.rank.value()),
            trick.slot_in_order(0) is Some && trick.slot_in_order(1) is None ==> spec_play_second(
                hand.cards@,
                trump_suit,
                trick.slot_in_order(0).unwrap(),
                c,
            ),
            trick.slot_in_order(0) is Some && trick.slot_in_order(1) is Some && trick.slot_in_order(
                2,
            ) is None ==> spec_play_third(
                hand.cards@,
                trump_suit,
                trick.slot_in_order(0).unwrap(),
                trick.slot_in_order(1).unwrap(),
                c,
            ),
            trick.slot_in_order(0) is Some && trick.slot_in_order(1) is Some && trick.slot_in_order(
                2,
            ) is Some ==> spec_play_last(
                hand.cards@,
                trump_suit,
                trick.slot_in_order(0).unwrap(),
                trick.slot_in_order(1).unwrap(),
                trick.slot_in_order(2).unwrap(),
                c,
            ),
    {
        let ordered = trick.played_cards_in_order();
        if ordered[0].is_none() {
            self.play_first(hand, trump_suit)
        } else if ordered[1].is_none() {
            self.play_second(hand, trump_suit, ordered[0].unwrap())
        } else if ordered[2].is_none() {
            self.play_third(hand, trump_suit, ordered[0].unwrap(), ordered[1].unwrap())
        } else {
            proof {
                assert(trick.slot_in_order(3) is None);
            }
            self.play_last(
                hand,
                trump_suit,
                ordered[0].unwrap(),
                ordered[1].unwrap(),
                ordered[2].unwrap(),
            )
        }
    }

    /// Commit all four cards of the finished trick to memory, in seat
    /// order.
    fn trick_end(&mut self, trick: &Trick)
        ensures
            final(self).played_cards@ == old(self).played_cards@.push(
                trick.played_cards@[0].unwrap(),
            ).push(trick.played_cards@[1].unwrap()).push(trick.played_cards@[2].unwrap()).push(
                trick.played_cards@[3].unwrap(),
            ),
    {
        self.mark_as_played(trick.played_cards[0].unwrap());
        self.mark_as_played(trick.played_cards[1].unwrap());
        self.mark_as_played(trick.played_cards[2].unwrap());
        self.mark_as_played(trick.played_cards[3].unwrap());
    }
}

/// The suit holding the most cards, earliest in scan order among ties,
/// with its count.
fn best_count_suit_of(hand: &Hand) -> (r: (Suit, usize))
    ensures
        is_first_max_count_suit(hand.cards@, r.0),
        r.1 == count_suit(hand.cards@, r.0),
{
    let c0 = hand.count_of_suit(Suit::Hearts);
    let c1 = hand.count_of_suit(Suit::Clubs);
    let c2 = hand.count_of_suit(Suit::Diamonds);
    let c3 = hand.count_of_suit(Suit::Spades);
    let mut bc_suit = Suit::Hearts;
    let mut bc_count = c0;
    if c1 > bc_count {
        bc_suit = Suit::Clubs;
        bc_count = c1;
    }
    if c2 > bc_count {
        bc_suit = Suit::Diamonds;
        bc_count = c2;
    }
    if c3 > bc_count {
        bc_suit = Suit::Spades;
        bc_count = c3;
    }
    proof {
        assert forall|s: Suit| #[trigger] count_suit(hand.cards@, s) <= count_suit(
            hand.cards@,
            bc_suit,
        ) by {
            match s {
                Suit::Hearts => assert(count_suit(hand.cards@, s) == c0),
                Suit::Clubs => assert(count_suit(hand.cards@, s) == c1),
                Suit::Diamonds => assert(count_suit(hand.cards@, s) == c2),
                Suit::Spades => assert(count_suit(hand.cards@, s) == c3),
            }
        }
        assert forall|s: Suit| s.order() < bc_suit.order() implies #[trigger] count_suit(
            hand.cards@,
            s,
        ) < count_suit(hand.cards@, bc_suit) by {
            match s {
                Suit::Hearts => assert(count_suit(hand.cards@, s) == c0),
                Suit::Clubs => assert(count_suit(hand.cards@, s) == c1),
                Suit::Diamonds => assert(count_suit(hand.cards@, s) == c2),
                Suit::Spades => assert(count_suit(hand.cards@, s) == c3),
            }
        }
    }
    (bc_suit, bc_count)
}

/// The overall highest held card, from the earliest suit in scan order
/// among rank ties.
fn best_high_card_of(hand: &Hand) -> (r: Option<Card>)
    ensures
        r is Some <==> hand.cards@.len() > 0,
        r matches Some(b) ==> hand.cards@.contains(b) && is_first_highest_card_suit(
            hand.cards@,
            b.suit,
        ) && (forall|j: int|
            0 <= j < hand.cards@.len() ==> (#[trigger] hand.cards@[j]).rank.value()
                <= b.rank.value()),
{
    let h0 = hand.highest_rank_card(Suit::Hearts);
    let h1 = hand.highest_rank_card(Suit::Clubs);
    let h2 = hand.highest_rank_card(Suit::Diamonds);
    let h3 = hand.highest_rank_card(Suit::Spades);
    let mut bh: Option<Card> = h0;
    bh = keep_first_highest(bh, h1);
    bh = keep_first_highest(bh, h2);
    bh = keep_first_highest(bh, h3);
    proof {
        lemma_best_high_fold(hand.cards@, h0, h1, h2, h3);
    }
    bh
}

/// The fold of the four per-suit bests yields the overall strongest held
/// card, from the earliest suit among rank ties; it yields nothing only for
/// an empty hand.
#[verifier::rlimit(50)]
proof fn lemma_best_high_fold(
    h: Seq<Card>,
    h0: Option<Card>,
    h1: Option<Card>,
    h2: Option<Card>,
    h3: Option<Card>,
)
    requires
        suit_best_facts(h, h0, Suit::Hearts),
        suit_best_facts(h, h1, Suit::Clubs),
        suit_best_facts(h, h2, Suit::Diamonds),
        suit_best_facts(h, h3, Suit::Spades),
    ensures
        fold_first_highest(h0, h1, h2, h3) is Some <==> h.len() > 0,
        fold_first_highest(h0, h1, h2, h3) matches Some(b) ==> h.contains(b)
            && is_first_highest_card_suit(h, b.suit) && (forall|j: int|
            0 <= j < h.len() ==> (#[trigger] h[j]).rank.value() <= b.rank.value()),
{
    let r = fold_first_highest(h0, h1, h2, h3);
    match r {
        Some(b) => {
            let w = choose|w: int| 0 <= w < h.len() && h[w] == b;
            assert forall|j: int|
                0 <= j < h.len() implies (#[trigger] h[j]).rank.value() <= b.rank.value() by {
                lemma_rank_below_suit_best(h, h0, h1, h2, h3, b, j);
            }
            assert(is_highest_card_suit(h, b.suit)) by {
                assert(h[w].suit == b.suit);
            }
            lemma_fold_keeps_earlier_on_ties(h0, h1, h2, h3);
            // No earlier suit holds a card of the top rank: every card of an
            // earlier suit ranks strictly below `b`, while a top card of
            // that suit would have to rank at least as high as `b` itself.
            assert forall|s: Suit|
                s.order() < b.suit.order() implies !(#[trigger] is_highest_card_suit(h, s)) by {
                if is_highest_card_suit(h, s) {
                    let i = choose|i: int|
                        0 <= i < h.len() && h[i].suit == s && (forall|j: int|
                            0 <= j < h.len() ==> (#[trigger] h[j]).rank.value()
                                <= h[i].rank.value());
                    assert(h[w].rank.value() <= h[i].rank.value());
                    match s {
                        Suit::Hearts => {
                            assert(h0 matches Some(x) && h[i].rank.value() <= x.rank.value());
                        },
                        Suit::Clubs => {
                            assert(h1 matches Some(x) && h[i].rank.value() <= x.rank.value());
                        },
                        Suit::Diamonds => {
                            assert(h2 matches Some(x) && h[i].rank.value() <= x.rank.value());
                        },
                        Suit::Spades => {
                            assert(false);
                        },
                    }
                }
            }
        },
        None => {
            if h.len() > 0 {
                match h[0].suit {
                    Suit::Hearts => assert(h0 is Some),
                    Suit::Clubs => assert(h1 is Some),
                    Suit::Diamonds => assert(h2 is Some),
                    Suit::Spades => assert(h3 is Some),
                }
            }
            assert(h.len() == 0);
        },
    }
}

/// Every card's rank is bounded by its own suit's best card, which in turn
/// is bounded by the strongest card `b` found over all suits.
proof fn lemma_rank_below_suit_best(
    h: Seq<Card>,
    h0: Option<Card>,
    h1: Option<Card>,
    h2: Option<Card>,
    h3: Option<Card>,
    b: Card,
    j: int,
)
    requires
        0 <= j < h.len(),
        suit_best_facts(h, h0, Suit::Hearts),
        suit_best_facts(h, h1, Suit::Clubs),
        suit_best_facts(h, h2, Suit::Diamonds),
        suit_best_facts(h, h3, Suit::Spades),
        h0 matches Some(x) ==> x.rank.value() <= b.rank.value(),
        h1 matches Some(x) ==> x.rank.value() <= b.rank.value(),
        h2 matches Some(x) ==> x.rank.value() <= b.rank.value(),
        h3 matches Some(x) ==> x.rank.value() <= b.rank.value(),
    ensures
        h[j].rank.value() <= b.rank.value(),
{
    match h[j].suit {
        Suit::Hearts => {
            assert(h0 matches Some(x) && h[j].rank.value() <= x.rank.value());
        },
        Suit::Clubs => {
            assert(h1 matches Some(x) && h[j].rank.value() <= x.rank.value());
        },
        Suit::Diamonds => {
            assert(h2 matches Some(x) && h[j].rank.value() <= x.rank.value());
        },
        Suit::Spades => {
            assert(h3 matches Some(x) && h[j].rank.value() <= x.rank.value());
        },
    }
}

/// A candidate replaces the running best only on a strictly higher rank, so
/// the fold's winner strictly out-ranks the per-suit best of every suit
/// scanned before its own: rank ties keep the earlier suit.
proof fn lemma_fold_keeps_earlier_on_ties(
    h0: Option<Card>,
    h1: Option<Card>,
    h2: Option<Card>,
    h3: Option<Card>,
)
    requires
        h0 matches Some(x) ==> x.suit == Suit::Hearts,
        h1 matches Some(x) ==> x.suit == Suit::Clubs,
        h2 matches Some(x) ==> x.suit == Suit::Diamonds,
        h3 matches Some(x) ==> x.suit == Suit::Spades,
    ensures
        fold_first_highest(h0, h1, h2, h3) matches Some(b) ==> {
            &&& b.suit == Suit::Clubs ==> (h0 matches Some(x) ==> x.rank.value() < b.rank.value())
            &&& b.suit == Suit::Diamonds ==> (h0 matches Some(x) ==> x.rank.value()
                < b.rank.value()) && (h1 matches Some(x) ==> x.rank.value() < b.rank.value())
            &&& b.suit == Suit::Spades ==> (h0 matches Some(x) ==> x.rank.value()
                < b.rank.value()) && (h1 matches Some(x) ==> x.rank.value() < b.rank.value()) && (
            h2 matches Some(x) ==> x.rank.value() < b.rank.value())
        },
{
    let b1 = spec_keep_first_highest(h0, h1);
    let b2 = spec_keep_first_highest(b1, h2);
    let b3 = spec_keep_first_highest(b2, h3);
    assert(fold_first_highest(h0, h1, h2, h3) == b3);
}

/// What `Hand::highest_rank_card` guarantees, phrased over the view.
pub open spec fn suit_best_facts(h: Seq<Card>, r: Option<Card>, s: Suit) -> bool {
    &&& (r is Some <==> has_suit(h, s))
    &&& (r matches Some(c) ==> c.suit == s && h.contains(c) && forall|i: int|
        0 <= i < h.len() && (#[trigger] h[i]).suit == s ==> h[i].rank.value() <= c.rank.value())
}

/// The left-to-right fold of `keep_first_highest` over the four suit bests.
pub open spec fn fold_first_highest(
    h0: Option<Card>,
    h1: Option<Card>,
    h2: Option<Card>,
    h3: Option<Card>,
) -> Option<Card> {
    let b1 = spec_keep_first_highest(h0, h1);
    let b2 = spec_keep_first_highest(b1, h2);
    spec_keep_first_highest(b2, h3)
}

/// Keep the running best unless the candidate is strictly stronger.
pub open spec fn spec_keep_first_highest(best: Option<Card>, cand: Option<Card>) -> Option<Card> {
    match cand {
        None => best,
        Some(hc) => match best {
            None => Some(hc),
            Some(b) => if hc.rank.value() > b.rank.value() {
                Some(hc)
            } else {
                Some(b)
            },
        },
    }
}

/// Executable form of `spec_keep_first_highest`.
fn keep_first_highest(best: Option<Card>, cand: Option<Card>) -> (r: Option<Card>)
    ensures
        r == spec_keep_first_highest(best, cand),
{
    match cand {
        None => best,
        Some(hc) => {
            match best {
                None => Some(hc),
                Some(b) => {
                    if hc.rank().as_i32() > b.rank().as_i32() {
                        Some(hc)
                    } else {
                        Some(b)
                    }
                },
            }
        },
    }
}

/// Keep the stronger of the running best and a suit's highest card; a tie
/// keeps the earlier suit.
fn merge_highest(best: Option<Card>, cand: Option<Card>) -> (r: Option<Card>)
    ensures
        r is Some <==> (best is Some || cand is Some),
        r matches Some(b) ==> (best == Some(b) || cand == Some(b)),
        r matches Some(b) ==> (best matches Some(x) ==> x.rank.value() <= b.rank.value()),
        r matches Some(b) ==> (cand matches Some(x) ==> x.rank.value() <= b.rank.value()),
{
    match cand {
        None => best,
        Some(hc) => {
            match best {
                None => Some(hc),
                Some(b) => {
                    if hc.rank().as_i32() > b.rank().as_i32() {
                        Some(hc)
                    } else {
                        Some(b)
                    }
                },
            }
        },
    }
}

} // verus!
