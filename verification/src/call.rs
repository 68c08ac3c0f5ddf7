//! Strains, bids, calls and contracts.

use vstd::prelude::*;
use crate::card::{Suit, suit_of};
use crate::seat::Seat;

verus! {

/// A denomination: one of the four suits or notrump, in bidding order.
#[derive(Clone, Copy, PartialEq, Eq, Structural, Hash, PartialOrd, Ord, Debug)]
#[allow(missing_docs)]
pub enum Strain {
    Clubs,
    Diamonds,
    Hearts,
    Spades,
    NoTrump,
}

/// The strain with index `i` (`0..5`).
pub open spec fn strain_of(i: int) -> Strain {
    if i == 0 {
        Strain::Clubs
    } else if i == 1 {
        Strain::Diamonds
    } else if i == 2 {
        Strain::Hearts
    } else if i == 3 {
        Strain::Spades
    } else {
        Strain::NoTrump
    }
}

impl Strain {
    /// All strains in bidding order.
    pub const ALL: [Strain; 5] = [
        Strain::Clubs,
        Strain::Diamonds,
        Strain::Hearts,
        Strain::Spades,
        Strain::NoTrump,
    ];

    /// Index `0..5`.
    pub open spec fn idx(self) -> int {
        match self {
            Strain::Clubs => 0,
            Strain::Diamonds => 1,
            Strain::Hearts => 2,
            Strain::Spades => 3,
            Strain::NoTrump => 4,
        }
    }

    /// The strain with index `i` (`0..5`).
    pub fn from_index(i: u8) -> (s: Strain)
        requires
            i < 5,
        ensures
            s.idx() == i,
            s == strain_of(i as int),
    {
        match i {
            0 => Strain::Clubs,
            1 => Strain::Diamonds,
            2 => Strain::Hearts,
            3 => Strain::Spades,
            _ => Strain::NoTrump,
        }
    }

    /// Index `0..5`.
    pub fn index(self) -> (r: u8)
        ensures
            r == self.idx(),
            r < 5,
    {
        match self {
            Strain::Clubs => 0,
            Strain::Diamonds => 1,
            Strain::Hearts => 2,
            Strain::Spades => 3,
            Strain::NoTrump => 4,
        }
    }

    /// The strain naming `suit`.
    pub fn from_suit(suit: Suit) -> (s: Strain)
        ensures
            s.idx() == suit.idx(),
    {
        Strain::from_index(suit.index())
    }

    /// The trump suit, or `None` for notrump.
    pub fn suit(self) -> (r: Option<Suit>)
        ensures
            r is None <==> self == Strain::NoTrump,
            r matches Some(s) ==> s.idx() == self.idx(),
    {
        match self {
            Strain::NoTrump => None,
            _ => Some(Suit::from_index(self.index())),
        }
    }

    /// `true` for hearts and spades.
    pub fn is_major(self) -> (r: bool)
        ensures
            r == (self == Strain::Hearts || self == Strain::Spades),
    {
        match self {
            Strain::Hearts | Strain::Spades => true,
            _ => false,
        }
    }

    /// `true` for clubs and diamonds.
    pub fn is_minor(self) -> (r: bool)
        ensures
            r == (self == Strain::Clubs || self == Strain::Diamonds),
    {
        match self {
            Strain::Clubs | Strain::Diamonds => true,
            _ => false,
        }
    }
}

/// A bid, stored as `0..35` with `1♣ = 0` and `7NT = 34`.
///
/// The single-integer encoding makes "higher bid" an integer comparison.
#[derive(Clone, Copy, PartialEq, Eq, Structural, Hash, PartialOrd, Ord, Debug)]
pub struct Bid(u8);

impl View for Bid {
    type V = int;

    /// The index `0..35` of the bid.
    closed spec fn view(&self) -> int {
        self.0 as int
    }
}

impl Bid {
    #[verifier::type_invariant]
    pub(crate) closed spec fn inv(self) -> bool {
        self.0 < 35
    }

    /// Level `1..=7` of a bid index.
    pub open spec fn level_of(i: int) -> int {
        i / 5 + 1
    }

    /// The index of an existing bid is below 35.
    pub(crate) proof fn lemma_inv_range(self)
        requires
            self.inv(),
        ensures
            self@ < 35,
    {
    }

    /// A bid's index is a byte.
    pub proof fn lemma_view_nonneg(self)
        ensures
            0 <= self@ < 256,
    {
    }

    /// Two bids with the same index are equal.
    pub proof fn lemma_eq(a: Bid, b: Bid)
        requires
            a@ == b@,
        ensures
            a == b,
    {
    }

    /// The bid with index `i` (the caller guarantees `i < 35`).
    pub(crate) fn from_index_unchecked(i: u8) -> (b: Bid)
        requires
            i < 35,
        ensures
            b@ == i,
    {
        Bid(i)
    }

    /// The bid of `level` (`1..=7`) in `strain`, or `None` for an invalid level.
    pub fn new(level: u8, strain: Strain) -> (r: Option<Bid>)
        ensures
            r is Some <==> 1 <= level <= 7,
            r matches Some(b) ==> b@ == (level - 1) * 5 + strain.idx(),
    {
        if level >= 1 && level <= 7 {
            Some(Bid((level - 1) * 5 + strain.index()))
        } else {
            None
        }
    }

    /// The bid with index `i`, or `None` if `i >= 35`.
    pub fn from_index(i: u8) -> (r: Option<Bid>)
        ensures
            r is Some <==> i < 35,
            r matches Some(b) ==> b@ == i,
    {
        if i < 35 {
            Some(Bid(i))
        } else {
            None
        }
    }

    /// Index `0..35`.
    pub fn index(self) -> (r: u8)
        ensures
            r == self@,
            r < 35,
    {
        proof {
            use_type_invariant(self);
        }
        self.0
    }

    /// Level `1..=7`.
    pub fn level(self) -> (r: u8)
        ensures
            r == Bid::level_of(self@),
            1 <= r <= 7,
    {
        proof {
            use_type_invariant(self);
        }
        self.0 / 5 + 1
    }

    /// Denomination.
    pub fn strain(self) -> (s: Strain)
        ensures
            s.idx() == self@ % 5,
    {
        Strain::from_index(self.0 % 5)
    }

    /// Tricks needed to make this bid (`6 + level`).
    pub fn tricks_required(self) -> (r: u8)
        ensures
            r == 6 + Bid::level_of(self@),
    {
        6 + self.level()
    }
}

/// A call in the auction.
#[derive(Clone, Copy, PartialEq, Eq, Structural, Hash, Debug)]
pub enum Call {
    /// Pass.
    Pass,
    /// Double.
    Double,
    /// Redouble.
    Redouble,
    /// A bid.
    Bid(Bid),
}

impl Call {
    /// Index `0..38` (Pass = 0, Double = 1, Redouble = 2, bids at `3 + bid`).
    pub open spec fn idx(self) -> int {
        match self {
            Call::Pass => 0,
            Call::Double => 1,
            Call::Redouble => 2,
            Call::Bid(b) => 3 + b@,
        }
    }

    /// Index `0..38` (Pass = 0, Double = 1, Redouble = 2, bids at `3 + bid.index()`), used by
    /// system tries and call-distribution tables.
    pub fn index(self) -> (r: u8)
        ensures
            r == self.idx(),
            r < 38,
    {
        match self {
            Call::Pass => 0,
            Call::Double => 1,
            Call::Redouble => 2,
            Call::Bid(b) => 3 + b.index(),
        }
    }

    /// The call with index `i`, or `None` if `i >= 38`.
    pub fn from_index(i: u8) -> (r: Option<Call>)
        ensures
            r is Some <==> i < 38,
            r matches Some(c) ==> c.idx() == i,
    {
        match i {
            0 => Some(Call::Pass),
            1 => Some(Call::Double),
            2 => Some(Call::Redouble),
            _ => match Bid::from_index(i - 3) {
                Some(b) => Some(Call::Bid(b)),
                None => None,
            },
        }
    }

    /// The bid, if this call is one.
    pub fn bid(self) -> (r: Option<Bid>)
        ensures
            r == (match self {
                Call::Bid(b) => Some(b),
                _ => None,
            }),
    {
        match self {
            Call::Bid(b) => Some(b),
            _ => None,
        }
    }

    /// `true` for [`Call::Bid`].
    pub fn is_bid(self) -> (r: bool)
        ensures
            r == self is Bid,
    {
        match self {
            Call::Bid(_) => true,
            _ => false,
        }
    }

    /// Call indices are never negative.
    pub proof fn lemma_idx_nonneg(self)
        ensures
            0 <= self.idx(),
    {
        match self {
            Call::Bid(b) => b.lemma_view_nonneg(),
            _ => {},
        }
    }

    /// Two calls with the same index are equal.
    pub proof fn lemma_idx_eq(a: Call, b: Call)
        requires
            a.idx() == b.idx(),
        ensures
            a == b,
    {
        match (a, b) {
            (Call::Bid(x), Call::Bid(y)) => Bid::lemma_eq(x, y),
            _ => {}
        }
    }
}

/// Whether the final contract is doubled or redoubled.
#[derive(Clone, Copy, PartialEq, Eq, Structural, Hash, Debug)]
#[allow(missing_docs)]
pub enum Doubling {
    Undoubled,
    Doubled,
    Redoubled,
}

/// The final contract of a completed auction.
#[derive(Clone, Copy, PartialEq, Eq, Structural, Hash, Debug)]
pub struct Contract {
    /// The last bid of the auction.
    pub bid: Bid,
    /// The first player of the declaring side to have named the contract's strain.
    pub declarer: Seat,
    /// Doubled state.
    pub doubling: Doubling,
}

impl Contract {
    /// The opening leader: declarer's left-hand opponent.
    pub fn leader(self) -> (s: Seat)
        ensures
            s == self.declarer.after(1),
    {
        self.declarer.next()
    }

    /// The dummy: declarer's partner.
    pub fn dummy(self) -> (s: Seat)
        ensures
            s == self.declarer.after(2),
    {
        self.declarer.partner()
    }
}

} // verus!
