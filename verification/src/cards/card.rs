use vstd::prelude::*;

verus! {

/// One of the four suits. A suit has no ordering semantics of its own; the
/// scan order Hearts, Clubs, Diamonds, Spades is only used as a stable order
/// for iteration and for sorting hands.
#[derive(Clone, Copy, PartialEq, Eq, Structural, Debug, Hash)]
pub enum Suit {
    Hearts,
    Clubs,
    Diamonds,
    Spades,
}

impl Suit {
    /// Position of this suit in the fixed scan order.
    pub open spec fn order(self) -> int {
        match self {
            Suit::Hearts => 0,
            Suit::Clubs => 1,
            Suit::Diamonds => 2,
            Suit::Spades => 3,
        }
    }

    /// Inverse of `order` on 0..4.
    pub open spec fn spec_from_order(i: int) -> Suit {
        if i == 0 {
            Suit::Hearts
        } else if i == 1 {
            Suit::Clubs
        } else if i == 2 {
            Suit::Diamonds
        } else {
            Suit::Spades
        }
    }

    /// The four suits in scan order.
    pub open spec fn all_suits_seq() -> Seq<Suit> {
        seq![Suit::Hearts, Suit::Clubs, Suit::Diamonds, Suit::Spades]
    }

    pub fn all_suits() -> (r: Vec<Suit>)
        ensures
            r@ == Self::all_suits_seq(),
    {
        let mut v: Vec<Suit> = Vec::new();
        v.push(Suit::Hearts);
        v.push(Suit::Clubs);
        v.push(Suit::Diamonds);
        v.push(Suit::Spades);
        proof {
            assert(v@ =~= Self::all_suits_seq());
        }
        v
    }

    pub fn as_order(&self) -> (r: u8)
        ensures
            r as int == self.order(),
    {
        match self {
            Suit::Hearts => 0,
            Suit::Clubs => 1,
            Suit::Diamonds => 2,
            Suit::Spades => 3,
        }
    }

    pub fn from_u8(x: u8) -> (s: Suit)
        requires
            x < 4,
        ensures
            s == Self::spec_from_order(x as int),
            s.order() == x as int,
    {
        if x == 0 {
            Suit::Hearts
        } else if x == 1 {
            Suit::Clubs
        } else if x == 2 {
            Suit::Diamonds
        } else {
            Suit::Spades
        }
    }
}

/// One of the thirteen ranks, Two low, Ace high.
#[derive(Clone, Copy, PartialEq, Eq, Structural, Debug, Hash)]
pub enum Rank {
    Two,
    Three,
    Four,
    Five,
    Six,
    Seven,
    Eight,
    Nine,
    Ten,
    Jack,
    Queen,
    King,
    Ace,
}

impl Rank {
    /// The numeric projection of a rank: 2 for Two up to 14 for Ace. Ranks
    /// compare by this value.
    pub open spec fn value(self) -> int {
        match self {
            Rank::Two => 2,
            Rank::Three => 3,
            Rank::Four => 4,
            Rank::Five => 5,
            Rank::Six => 6,
            Rank::Seven => 7,
            Rank::Eight => 8,
            Rank::Nine => 9,
            Rank::Ten => 10,
            Rank::Jack => 11,
            Rank::Queen => 12,
            Rank::King => 13,
            Rank::Ace => 14,
        }
    }

    /// Inverse of `value` on 2..15.
    pub open spec fn spec_from_value(v: int) -> Rank {
        if v <= 2 {
            Rank::Two
        } else if v == 3 {
            Rank::Three
        } else if v == 4 {
            Rank::Four
        } else if v == 5 {
            Rank::Five
        } else if v == 6 {
            Rank::Six
        } else if v == 7 {
            Rank::Seven
        } else if v == 8 {
            Rank::Eight
        } else if v == 9 {
            Rank::Nine
        } else if v == 10 {
            Rank::Ten
        } else if v == 11 {
            Rank::Jack
        } else if v == 12 {
            Rank::Queen
        } else if v == 13 {
            Rank::King
        } else {
            Rank::Ace
        }
    }

    /// The thirteen ranks in ascending order.
    pub open spec fn all_ranks_seq() -> Seq<Rank> {
        seq![
            Rank::Two,
            Rank::Three,
            Rank::Four,
            Rank::Five,
            Rank::Six,
            Rank::Seven,
            Rank::Eight,
            Rank::Nine,
            Rank::Ten,
            Rank::Jack,
            Rank::Queen,
            Rank::King,
            Rank::Ace,
        ]
    }

    pub fn as_i32(&self) -> (r: i32)
        ensures
            r as int == self.value(),
    {
        match self {
            Rank::Two => 2,
            Rank::Three => 3,
            Rank::Four => 4,
            Rank::Five => 5,
            Rank::Six => 6,
            Rank::Seven => 7,
            Rank::Eight => 8,
            Rank::Nine => 9,
            Rank::Ten => 10,
            Rank::Jack => 11,
            Rank::Queen => 12,
            Rank::King => 13,
            Rank::Ace => 14,
        }
    }

    pub fn from_u8(x: u8) -> (r: Rank)
        requires
            2 <= x < 15,
        ensures
            r == Self::spec_from_value(x as int),
            r.value() == x as int,
    {
        if x == 2 {
            Rank::Two
        } else if x == 3 {
            Rank::Three
        } else if x == 4 {
            Rank::Four
        } else if x == 5 {
            Rank::Five
        } else if x == 6 {
            Rank::Six
        } else if x == 7 {
            Rank::Seven
        } else if x == 8 {
            Rank::Eight
        } else if x == 9 {
            Rank::Nine
        } else if x == 10 {
            Rank::Ten
        } else if x == 11 {
            Rank::Jack
        } else if x == 12 {
            Rank::Queen
        } else if x == 13 {
            Rank::King
        } else {
            Rank::Ace
        }
    }

    pub fn all_ranks() -> (r: Vec<Rank>)
        ensures
            r@ == Self::all_ranks_seq(),
    {
        let mut v: Vec<Rank> = Vec::new();
        v.push(Rank::Two);
        v.push(Rank::Three);
        v.push(Rank::Four);
        v.push(Rank::Five);
        v.push(Rank::Six);
        v.push(Rank::Seven);
        v.push(Rank::Eight);
        v.push(Rank::Nine);
        v.push(Rank::Ten);
        v.push(Rank::Jack);
        v.push(Rank::Queen);
        v.push(Rank::King);
        v.push(Rank::Ace);
        proof {
            assert(v@ =~= Self::all_ranks_seq());
        }
        v
    }
}

/// An immutable (suit, rank) pair. Exactly 52 distinct values exist.
#[derive(Clone, Copy, PartialEq, Eq, Structural, Debug, Hash)]
pub struct Card {
    pub rank: Rank,
    pub suit: Suit,
}

impl Card {
    /// The packed index `suit * 13 + (rank - 2)`, in 0..52. This total order
    /// is only used to give sorted hands a stable, suit-grouped,
    /// rank-ascending arrangement.
    pub open spec fn key(self) -> int {
        self.suit.order() * 13 + self.rank.value() - 2
    }

    pub fn new(rank: Rank, suit: Suit) -> (c: Card)
        ensures
            c == (Card { rank, suit }),
    {
        Card { rank, suit }
    }

    pub fn rank(&self) -> (r: Rank)
        ensures
            r == self.rank,
    {
        self.rank
    }

    pub fn suit(&self) -> (s: Suit)
        ensures
            s == self.suit,
    {
        self.suit
    }

    /// Compare two cards by their packed index.
    pub fn le_by_key(&self, other: &Card) -> (r: bool)
        ensures
            r == (self.key() <= other.key()),
    {
        let a: i32 = self.suit.as_order() as i32 * 13 + self.rank.as_i32();
        let b: i32 = other.suit.as_order() as i32 * 13 + other.rank.as_i32();
        a <= b
    }
}

} // verus!
