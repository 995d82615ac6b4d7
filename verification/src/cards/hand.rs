use vstd::prelude::*;

use crate::cards::card::{Card, Suit};
use crate::cards::deck::Deck;
use vstd::seq_lib::group_seq_properties;

verus! {

/// The cards of `s` whose suit is `suit`, in hand order.
pub open spec fn suit_cards(s: Seq<Card>, suit: Suit) -> Seq<Card> {
    s.filter(|c: Card| c.suit == suit)
}

/// Does `s` hold at least one card of `suit`?
pub open spec fn has_suit(s: Seq<Card>, suit: Suit) -> bool {
    exists|i: int| 0 <= i < s.len() && s[i].suit == suit
}

/// Ascending by the packed card key: grouped by suit, rank-ascending within
/// each suit.
pub open spec fn sorted_by_key(s: Seq<Card>) -> bool {
    forall|i: int, j: int| 0 <= i < j < s.len() ==> s[i].key() <= s[j].key()
}

/// One step of `Seq::filter`, unfolded at a pushed element.
proof fn lemma_filter_push(s: Seq<Card>, pred: spec_fn(Card) -> bool, a: Card)
    ensures
        s.push(a).filter(pred) == if pred(a) {
            s.filter(pred).push(a)
        } else {
            s.filter(pred)
        },
{
    assert(s.push(a).drop_last() =~= s);
    assert(s.push(a).last() == a);
    reveal(Seq::filter);
}

/// The cards one player currently holds.
#[derive(Debug, Clone)]
pub struct Hand {
    pub cards: Vec<Card>,
}

impl Hand {
    pub fn new() -> (h: Self)
        ensures
            h.cards@ == Seq::<Card>::empty(),
    {
        Hand { cards: Vec::new() }
    }

    /// A hand made of the `size` top cards of `deck`.
    pub fn draw_from_deck(deck: &mut Deck, size: usize) -> (h: Hand)
        ensures
            ({
                let n = old(deck).cards@.len() as int;
                let at = if size <= n { n - size } else { 0 };
                &&& final(deck).cards@ == old(deck).cards@.subrange(0, at)
                &&& h.cards@ == old(deck).cards@.subrange(at, n)
            }),
    {
        Hand { cards: deck.draw_multiple_cards(size) }
    }

    /// Take all of `other`'s cards, keeping the current cards first.
    pub fn combine(&mut self, other: Hand)
        ensures
            final(self).cards@ == old(self).cards@ + other.cards@,
    {
        let mut other = other;
        self.cards.append(&mut other.cards);
    }

    /// Rearrange the hand into ascending key order. The cards themselves are
    /// kept: the multiset of cards does not change.
    pub fn sort(&mut self)
        ensures
            sorted_by_key(final(self).cards@),
            final(self).cards@.to_multiset() == old(self).cards@.to_multiset(),
            final(self).cards@.len() == old(self).cards@.len(),
    {
        let mut out: Vec<Card> = Vec::new();
        let mut i: usize = 0;
        proof {
            broadcast use group_seq_properties;

            assert(self.cards@.subrange(0, 0) =~= Seq::<Card>::empty());
        }
        while i < self.cards.len()
            invariant
                i <= self.cards@.len(),
                sorted_by_key(out@),
                out@.len() == i,
                out@.to_multiset() == self.cards@.subrange(0, i as int).to_multiset(),
            decreases self.cards@.len() - i,
        {
            let c = self.cards[i];
            proof {
                broadcast use group_seq_properties;

                assert(self.cards@.subrange(0, i + 1) =~= self.cards@.subrange(0, i as int).push(
                    c,
                ));
            }
            insert_sorted(&mut out, c);
            i += 1;
        }
        proof {
            assert(self.cards@.subrange(0, self.cards@.len() as int) =~= self.cards@);
        }
        self.cards = out;
    }

    /// How many cards of `suit` the hand holds.
    pub fn count_of_suit(&self, suit: Suit) -> (n: usize)
        ensures
            n == suit_cards(self.cards@, suit).len(),
            n > 0 <==> has_suit(self.cards@, suit),
    {
        let ghost pred = |c: Card| c.suit == suit;
        let mut n: usize = 0;
        let mut i: usize = 0;
        proof {
            assert(self.cards@.subrange(0, 0) =~= Seq::<Card>::empty());
            reveal(Seq::filter);
        }
        while i < self.cards.len()
            invariant
                i <= self.cards@.len(),
                n == self.cards@.subrange(0, i as int).filter(pred).len(),
                n > 0 <==> exists|k: int| 0 <= k < i && self.cards@[k].suit == suit,
                pred == (|c: Card| c.suit == suit),
                n <= i,
            decreases self.cards@.len() - i,
        {
            let c = self.cards[i];
            proof {
                assert(self.cards@.subrange(0, i + 1) =~= self.cards@.subrange(0, i as int).push(
                    c,
                ));
                lemma_filter_push(self.cards@.subrange(0, i as int), pred, c);
            }
            if c.suit() == suit {
                n += 1;
            }
            i += 1;
        }
        proof {
            assert(self.cards@.subrange(0, self.cards@.len() as int) =~= self.cards@);
        }
        n
    }

    /// The cards of `suit` the hand holds, in hand order.
    pub fn cards_of_suit(&self, suit: Suit) -> (v: Vec<Card>)
        ensures
            v@ == suit_cards(self.cards@, suit),
            forall|k: int|
                0 <= k < v@.len() ==> self.cards@.contains(#[trigger] v@[k]) && v@[k].suit == suit,
            forall|i: int|
                0 <= i < self.cards@.len() && (#[trigger] self.cards@[i]).suit == suit
                    ==> v@.contains(self.cards@[i]),
    {
        let ghost pred = |c: Card| c.suit == suit;
        let mut v: Vec<Card> = Vec::new();
        let mut i: usize = 0;
        proof {
            assert(self.cards@.subrange(0, 0) =~= Seq::<Card>::empty());
            reveal(Seq::filter);
        }
        while i < self.cards.len()
            invariant
                i <= self.cards@.len(),
                v@ == self.cards@.subrange(0, i as int).filter(pred),
                pred == (|c: Card| c.suit == suit),
                forall|k: int|
                    0 <= k < v@.len() ==> self.cards@.contains(#[trigger] v@[k]) && v@[k].suit
                        == suit,
                forall|j: int|
                    0 <= j < i && (#[trigger] self.cards@[j]).suit == suit ==> v@.contains(
                        self.cards@[j],
                    ),
            decreases self.cards@.len() - i,
        {
            let c = self.cards[i];
            let ghost oldv = v@;
            proof {
                assert(self.cards@.subrange(0, i + 1) =~= self.cards@.subrange(0, i as int).push(
                    c,
                ));
                lemma_filter_push(self.cards@.subrange(0, i as int), pred, c);
            }
            if c.suit() == suit {
                v.push(c);
                proof {
                    assert(v@[v@.len() - 1] == c);
                    assert(self.cards@.contains(c)) by {
                        assert(self.cards@[i as int] == c);
                    }
                    assert forall|j: int|
                        0 <= j < i + 1 && (#[trigger] self.cards@[j]).suit == suit implies v@
                        .contains(self.cards@[j]) by {
                        if j < i {
                            let w = choose|w: int| 0 <= w < oldv.len() && oldv[w] == self.cards@[j];
                            assert(v@[w] == self.cards@[j]);
                        } else {
                            assert(v@[v@.len() - 1] == self.cards@[j]);
                        }
                    }
                }
            }
            i += 1;
        }
        proof {
            assert(self.cards@.subrange(0, self.cards@.len() as int) =~= self.cards@);
        }
        v
    }

    /// The highest-ranked card of `suit` in the hand, if any card of that
    /// suit is held.
    pub fn highest_rank_card(&self, suit: Suit) -> (r: Option<Card>)
        ensures
            r is Some <==> has_suit(self.cards@, suit),
            r matches Some(c) ==> c.suit == suit && self.cards@.contains(c) && forall|i: int|
                0 <= i < self.cards@.len() && self.cards@[i].suit == suit
                    ==> self.cards@[i].rank.value() <= c.rank.value(),
    {
        let mut best: Option<Card> = None;
        let mut i: usize = 0;
        while i < self.cards.len()
            invariant
                i <= self.cards@.len(),
                best is Some <==> exists|k: int| 0 <= k < i && self.cards@[k].suit == suit,
                best matches Some(c) ==> c.suit == suit && self.cards@.contains(c) && forall|
                    k: int,
                |
                    0 <= k < i && self.cards@[k].suit == suit ==> self.cards@[k].rank.value()
                        <= c.rank.value(),
            decreases self.cards@.len() - i,
        {
            let c = self.cards[i];
            if c.suit() == suit {
                match best {
                    Some(b) => {
                        if c.rank().as_i32() > b.rank().as_i32() {
                            best = Some(c);
                        }
                    },
                    None => {
                        best = Some(c);
                    },
                }
            }
            i += 1;
        }
        best
    }

    /// Is `card` physically present in the hand?
    pub fn contains_card(&self, card: Card) -> (r: bool)
        ensures
            r == self.cards@.contains(card),
    {
        let mut i: usize = 0;
        while i < self.cards.len()
            invariant
                i <= self.cards@.len(),
                forall|k: int| 0 <= k < i ==> self.cards@[k] != card,
            decreases self.cards@.len() - i,
        {
            if self.cards[i] == card {
                return true;
            }
            i += 1;
        }
        false
    }

    /// Remove the first occurrence of `card` from the hand, reporting whether
    /// it was present.
    pub fn remove_card(&mut self, card: Card) -> (found: bool)
        ensures
            found == old(self).cards@.contains(card),
            !found ==> *final(self) == *old(self),
            found ==> exists|i: int|
                0 <= i < old(self).cards@.len() && old(self).cards@[i] == card
                    && final(self).cards@ == old(self).cards@.remove(i) && (forall|j: int|
                    0 <= j < i ==> old(self).cards@[j] != card),
    {
        let mut i: usize = 0;
        while i < self.cards.len()
            invariant
                *self == *old(self),
                i <= self.cards@.len(),
                forall|k: int| 0 <= k < i ==> self.cards@[k] != card,
            decreases self.cards@.len() - i,
        {
            if self.cards[i] == card {
                proof {
                    assert(old(self).cards@[i as int] == card);
                    assert(old(self).cards@.contains(card));
                }
                self.cards.remove(i);
                return true;
            }
            i += 1;
        }
        proof {
            assert(!old(self).cards@.contains(card)) by {
                if old(self).cards@.contains(card) {
                    let w = choose|k: int|
                        0 <= k < old(self).cards@.len() && old(self).cards@[k] == card;
                    assert(old(self).cards@[w] != card);
                }
            }
        }
        false
    }
}

/// Insert `c` into the sorted vector `v`, keeping it sorted.
fn insert_sorted(v: &mut Vec<Card>, c: Card)
    requires
        sorted_by_key(old(v)@),
    ensures
        sorted_by_key(final(v)@),
        final(v)@.to_multiset() == old(v)@.to_multiset().insert(c),
        final(v)@.len() == old(v)@.len() + 1,
{
    let mut p: usize = 0;
    while p < v.len() && v[p].le_by_key(&c)
        invariant
            p <= v@.len(),
            forall|q: int| 0 <= q < p ==> v@[q].key() <= c.key(),
            sorted_by_key(v@),
            v@ == old(v)@,
        decreases v@.len() - p,
    {
        p += 1;
    }
    proof {
        vstd::seq_lib::to_multiset_insert(old(v)@, p as int, c);
    }
    v.insert(p, c);
}

} // verus!
