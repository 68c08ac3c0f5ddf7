//! Suits, ranks and cards.

use vstd::prelude::*;
use crate::bits::{bitset64, lemma_block_mask, lemma_deposit, lemma_high_one, lemma_one};

verus! {

/// One of the four suits in bridge ranking order: clubs < diamonds < hearts < spades.
///
/// The index of a suit is its position in every suit-ordered table and the position of the
/// suit's 13-bit block inside a [`Hand`](crate::hand::Hand): clubs occupy bits `0..13`,
/// spades `39..52`.
#[derive(Clone, Copy, PartialEq, Eq, Structural, Hash, PartialOrd, Ord, Debug)]
pub enum Suit {
    /// ♣
    Clubs,
    /// ♦
    Diamonds,
    /// ♥
    Hearts,
    /// ♠
    Spades,
}

/// The suit with index `i` (`0..4`).
pub open spec fn suit_of(i: int) -> Suit {
    if i == 0 {
        Suit::Clubs
    } else if i == 1 {
        Suit::Diamonds
    } else if i == 2 {
        Suit::Hearts
    } else {
        Suit::Spades
    }
}

impl Suit {
    /// All suits in ascending (bit) order.
    pub const ALL: [Suit; 4] = [Suit::Clubs, Suit::Diamonds, Suit::Hearts, Suit::Spades];

    /// Index `0..4` of the suit.
    pub open spec fn idx(self) -> int {
        match self {
            Suit::Clubs => 0,
            Suit::Diamonds => 1,
            Suit::Hearts => 2,
            Suit::Spades => 3,
        }
    }

    /// The suit with index `i` (`0..4`).
    pub fn from_index(i: u8) -> (s: Suit)
        requires
            i < 4,
        ensures
            s.idx() == i,
            s == suit_of(i as int),
    {
        match i {
            0 => Suit::Clubs,
            1 => Suit::Diamonds,
            2 => Suit::Hearts,
            _ => Suit::Spades,
        }
    }

    /// Index `0..4`.
    pub fn index(self) -> (r: u8)
        ensures
            r == self.idx(),
            r < 4,
    {
        match self {
            Suit::Clubs => 0,
            Suit::Diamonds => 1,
            Suit::Hearts => 2,
            Suit::Spades => 3,
        }
    }

    /// Bit offset of this suit's block inside a hand: `13 * index`.
    pub fn shift(self) -> (r: u8)
        ensures
            r == 13 * self.idx(),
            r <= 39,
    {
        13 * self.index()
    }

    /// 52-bit mask covering this suit's block inside a hand.
    pub fn mask(self) -> (r: u64)
        ensures
            bitset64(r) == Set::new(|i: int| 13 * self.idx() <= i < 13 * self.idx() + 13),
            r >> 52 == 0,
    {
        let s = self.shift();
        let r = 0x1FFFu64 << s;
        proof {
            assert forall|i: int|
                #[trigger] bitset64(r).contains(i) == (13 * self.idx() <= i < 13 * self.idx()
                    + 13) by {
                if 0 <= i < 64 {
                    lemma_block_mask(s as u64, i as u64);
                }
            }
            assert(bitset64(r) =~= Set::new(
                |i: int| 13 * self.idx() <= i < 13 * self.idx() + 13,
            ));
            lemma_deposit(0x1FFF, s as u64, 0);
        }
        r
    }

    /// Unicode symbol (`♣ ♦ ♥ ♠`).
    pub fn symbol(self) -> (c: char)
        ensures
            c == match self {
                Suit::Clubs => '♣',
                Suit::Diamonds => '♦',
                Suit::Hearts => '♥',
                Suit::Spades => '♠',
            },
    {
        match self {
            Suit::Clubs => '♣',
            Suit::Diamonds => '♦',
            Suit::Hearts => '♥',
            Suit::Spades => '♠',
        }
    }

    /// PBN letter (`C D H S`).
    pub fn letter(self) -> (c: char)
        ensures
            c == suit_letter(self),
    {
        match self {
            Suit::Clubs => 'C',
            Suit::Diamonds => 'D',
            Suit::Hearts => 'H',
            Suit::Spades => 'S',
        }
    }
}

/// The PBN letter of a suit.
pub open spec fn suit_letter(s: Suit) -> char {
    match s {
        Suit::Clubs => 'C',
        Suit::Diamonds => 'D',
        Suit::Hearts => 'H',
        Suit::Spades => 'S',
    }
}

/// Card rank, ascending: Two = 0 … Ace = 12.
#[derive(Clone, Copy, PartialEq, Eq, Structural, Hash, PartialOrd, Ord, Debug)]
#[allow(missing_docs)]
pub enum Rank {
    Two,
    Three,
    Four,
    Five,
    Six,
    Seven,
    Eight,
    Nine,
    Ten,
    Jack,
    Queen,
    King,
    Ace,
}

/// The rank with index `i` (`0..13`).
pub open spec fn rank_of(i: int) -> Rank {
    if i == 0 {
        Rank::Two
    } else if i == 1 {
        Rank::Three
    } else if i == 2 {
        Rank::Four
    } else if i == 3 {
        Rank::Five
    } else if i == 4 {
        Rank::Six
    } else if i == 5 {
        Rank::Seven
    } else if i == 6 {
        Rank::Eight
    } else if i == 7 {
        Rank::Nine
    } else if i == 8 {
        Rank::Ten
    } else if i == 9 {
        Rank::Jack
    } else if i == 10 {
        Rank::Queen
    } else if i == 11 {
        Rank::King
    } else {
        Rank::Ace
    }
}

/// High-card points of a rank index (A = 4, K = 3, Q = 2, J = 1).
pub open spec fn rank_hcp(r: int) -> int {
    if r == 12 {
        4
    } else if r == 11 {
        3
    } else if r == 10 {
        2
    } else if r == 9 {
        1
    } else {
        0
    }
}

/// The PBN character of a rank index.
pub open spec fn rank_char(r: int) -> char {
    if r == 0 {
        '2'
    } else if r == 1 {
        '3'
    } else if r == 2 {
        '4'
    } else if r == 3 {
        '5'
    } else if r == 4 {
        '6'
    } else if r == 5 {
        '7'
    } else if r == 6 {
        '8'
    } else if r == 7 {
        '9'
    } else if r == 8 {
        'T'
    } else if r == 9 {
        'J'
    } else if r == 10 {
        'Q'
    } else if r == 11 {
        'K'
    } else {
        'A'
    }
}

impl Rank {
    /// All ranks in ascending order.
    pub const ALL: [Rank; 13] = [
        Rank::Two,
        Rank::Three,
        Rank::Four,
        Rank::Five,
        Rank::Six,
        Rank::Seven,
        Rank::Eight,
        Rank::Nine,
        Rank::Ten,
        Rank::Jack,
        Rank::Queen,
        Rank::King,
        Rank::Ace,
    ];

    /// Index `0..13` of the rank.
    pub open spec fn idx(self) -> int {
        match self {
            Rank::Two => 0,
            Rank::Three => 1,
            Rank::Four => 2,
            Rank::Five => 3,
            Rank::Six => 4,
            Rank::Seven => 5,
            Rank::Eight => 6,
            Rank::Nine => 7,
            Rank::Ten => 8,
            Rank::Jack => 9,
            Rank::Queen => 10,
            Rank::King => 11,
            Rank::Ace => 12,
        }
    }

    /// The rank with index `i` (`0..13`).
    pub fn from_index(i: u8) -> (r: Rank)
        requires
            i < 13,
        ensures
            r.idx() == i,
            r == rank_of(i as int),
    {
        match i {
            0 => Rank::Two,
            1 => Rank::Three,
            2 => Rank::Four,
            3 => Rank::Five,
            4 => Rank::Six,
            5 => Rank::Seven,
            6 => Rank::Eight,
            7 => Rank::Nine,
            8 => Rank::Ten,
            9 => Rank::Jack,
            10 => Rank::Queen,
            11 => Rank::King,
            _ => Rank::Ace,
        }
    }

    /// Index `0..13`.
    pub fn index(self) -> (r: u8)
        ensures
            r == self.idx(),
            r < 13,
    {
        match self {
            Rank::Two => 0,
            Rank::Three => 1,
            Rank::Four => 2,
            Rank::Five => 3,
            Rank::Six => 4,
            Rank::Seven => 5,
            Rank::Eight => 6,
            Rank::Nine => 7,
            Rank::Ten => 8,
            Rank::Jack => 9,
            Rank::Queen => 10,
            Rank::King => 11,
            Rank::Ace => 12,
        }
    }

    /// High-card points of this rank alone (A = 4, K = 3, Q = 2, J = 1, else 0).
    pub fn hcp(self) -> (r: u8)
        ensures
            r == rank_hcp(self.idx()),
    {
        match self {
            Rank::Ace => 4,
            Rank::King => 3,
            Rank::Queen => 2,
            Rank::Jack => 1,
            _ => 0,
        }
    }

    /// PBN character (`2`..`9`, `T`, `J`, `Q`, `K`, `A`).
    pub fn to_char(self) -> (c: char)
        ensures
            c == rank_char(self.idx()),
    {
        match self {
            Rank::Two => '2',
            Rank::Three => '3',
            Rank::Four => '4',
            Rank::Five => '5',
            Rank::Six => '6',
            Rank::Seven => '7',
            Rank::Eight => '8',
            Rank::Nine => '9',
            Rank::Ten => 'T',
            Rank::Jack => 'J',
            Rank::Queen => 'Q',
            Rank::King => 'K',
            Rank::Ace => 'A',
        }
    }
}

/// A single card, stored as its index `0..52` where `index = suit * 13 + rank`.
#[derive(Clone, Copy, PartialEq, Eq, Structural, Hash, PartialOrd, Ord, Debug)]
pub struct Card(u8);

impl View for Card {
    type V = int;

    /// The index `0..52` of the card.
    closed spec fn view(&self) -> int {
        self.0 as int
    }
}

impl Card {
    #[verifier::type_invariant]
    pub(crate) closed spec fn inv(self) -> bool {
        self.0 < 52
    }

    /// The card with index `i` (meaningful for `0 <= i < 52`).
    pub closed spec fn at_index(i: int) -> Card {
        Card(i as u8)
    }

    /// `at_index` inverts the index.
    pub proof fn lemma_at_index(i: int)
        requires
            0 <= i < 256,
        ensures
            Card::at_index(i)@ == i,
    {
    }

    /// A card's index is a byte.
    pub proof fn lemma_view_nonneg(self)
        ensures
            0 <= self@ < 256,
    {
    }

    /// Cards are determined by their indices.
    pub proof fn lemma_view_eq(a: Card, b: Card)
        requires
            a@ == b@,
        ensures
            a == b,
    {
    }

    /// The card with index `i` (the caller guarantees `i < 52`).
    pub(crate) fn from_index_unchecked(i: u8) -> (c: Card)
        requires
            i < 52,
        ensures
            c@ == i,
    {
        Card(i)
    }

    /// The card of `suit` and `rank`.
    pub fn new(suit: Suit, rank: Rank) -> (c: Card)
        ensures
            c@ == suit.idx() * 13 + rank.idx(),
            c@ < 52,
    {
        Card(suit.index() * 13 + rank.index())
    }

    /// The card with index `i`, or `None` if `i >= 52`.
    pub fn from_index(i: u8) -> (r: Option<Card>)
        ensures
            i < 52 <==> r is Some,
            r matches Some(c) ==> c@ == i,
    {
        if i < 52 {
            Some(Card(i))
        } else {
            None
        }
    }

    /// Index `0..52`.
    pub fn index(self) -> (r: u8)
        ensures
            r == self@,
            r < 52,
    {
        proof {
            use_type_invariant(self);
        }
        self.0
    }

    /// Suit of this card.
    pub fn suit(self) -> (s: Suit)
        ensures
            s.idx() == self@ / 13,
            s == suit_of(self@ / 13),
    {
        proof {
            use_type_invariant(self);
        }
        Suit::from_index(self.0 / 13)
    }

    /// Rank of this card.
    pub fn rank(self) -> (r: Rank)
        ensures
            r.idx() == self@ % 13,
            r == rank_of(self@ % 13),
    {
        proof {
            use_type_invariant(self);
        }
        Rank::from_index(self.0 % 13)
    }

    /// The single-bit mask of this card inside a hand.
    pub fn bit(self) -> (r: u64)
        ensures
            bitset64(r) == set![self@],
            r >> 52 == 0,
    {
        proof {
            use_type_invariant(self);
        }
        let r = 1u64 << self.0;
        proof {
            assert forall|i: int| #[trigger] bitset64(r).contains(i) == (i == self@) by {
                if 0 <= i < 64 {
                    lemma_one(self.0 as u64, i as u64);
                }
            }
            assert(bitset64(r) =~= set![self@]);
            lemma_high_one(self.0 as u64, 52);
        }
        r
    }
}

/// The card with index `i`.
pub open spec fn card_suit(i: int) -> Suit {
    suit_of(i / 13)
}

} // verus!
