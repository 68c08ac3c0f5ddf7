//! Encoding conversion between the core types and the double-dummy solver's.
//!
//! | Concept | core | solver | conversion |
//! | --- | --- | --- | --- |
//! | Seat | N=0 E=1 S=2 W=3 | same | identity |
//! | Suit | C=0 D=1 H=2 S=3 | S=0 H=1 D=2 C=3 | `3 − core` |
//! | Strain | C=0..S=3, NT=4 | S=0..C=3, NT=4 | `NT → 4`, else `3 − core` |
//! | Holding | bit `rank` (Two = bit 0) | bits `2..=14` (deuce = bit 2) | `bits << 2` |
//! | Rank | Two=0..Ace=12 | 2..14 | `+2` |
//! | Vulnerability (par) | enum | 0 none, 1 all, 2 NS, 3 EW | table |

use vstd::prelude::*;
use crate::call::Strain;
use crate::card::{suit_of, Suit};
use crate::deal::Deal;
use crate::hand::Hand;
use crate::holding::Holding;
use crate::seat::{seat_of, Seat, Vulnerability};

verus! {

/// The solver's suit index of a core suit.
pub fn suit(s: Suit) -> (r: i32)
    ensures
        r == 3 - s.idx(),
{
    3 - s.index() as i32
}

/// The solver's strain index of a core strain.
pub fn strain(s: Strain) -> (r: i32)
    ensures
        r == (if s == Strain::NoTrump {
            4
        } else {
            3 - s.idx()
        }),
{
    match s {
        Strain::NoTrump => 4,
        s => 3 - s.index() as i32,
    }
}

/// The solver's hand index of a seat.
pub fn seat(s: Seat) -> (r: i32)
    ensures
        r == s.idx(),
{
    s.index() as i32
}

/// The solver's rank of a core rank index.
pub fn rank(core_rank: u8) -> (r: i32)
    ensures
        r == core_rank + 2,
{
    core_rank as i32 + 2
}

/// The solver's card mask of a holding: the holding's bits moved up by two.
pub fn holding(h: Holding) -> (r: u32)
    ensures
        r == 4 * h.value(),
        r < 0x8000,
        h@ == crate::bits::bitset64(h.value() as u64),
{
    let b = h.bits();
    let r = (b as u32) << 2;
    assert(r == 4 * b) by (bit_vector)
        requires
            b < 0x2000,
            r == (b as u32) << 2,
    ;
    r
}

/// The solver's masks of one hand, in the solver's suit order.
fn hand_masks(h: Hand) -> (r: [u32; 4])
    ensures
        forall|j: int| 0 <= j < 4 ==> (#[trigger] r[j]) % 4 == 0 && r[j] < 0x8000
            && crate::bits::bitset64((r[j] / 4) as u64) == h.suit_view(suit_of(3 - j)),
{
    let s = h.holding(Suit::Spades);
    let he = h.holding(Suit::Hearts);
    let d = h.holding(Suit::Diamonds);
    let c = h.holding(Suit::Clubs);
    let r = [holding(s), holding(he), holding(d), holding(c)];
    proof {
        assert(s@ == crate::bits::bitset64(s.value() as u64));
        assert(he@ == crate::bits::bitset64(he.value() as u64));
        assert(d@ == crate::bits::bitset64(d.value() as u64));
        assert(c@ == crate::bits::bitset64(c.value() as u64));
        assert(suit_of(3 - 0) == Suit::Spades);
        assert(suit_of(3 - 1) == Suit::Hearts);
        assert(suit_of(3 - 2) == Suit::Diamonds);
        assert(suit_of(3 - 3) == Suit::Clubs);
    }
    r
}

/// `remainCards[hand][suit]` of a deal: the mask of each seat's holding, seats in core order
/// and suits in the solver's order.
pub fn remain_cards(deal: &Deal) -> (r: [[u32; 4]; 4])
    ensures
        forall|i: int, j: int| 0 <= i < 4 && 0 <= j < 4 ==> (#[trigger] r[i][j]) % 4 == 0 && r[i][j] < 0x8000
            && crate::bits::bitset64((r[i][j] / 4) as u64) == deal.hand_of(seat_of(i)).suit_view(suit_of(3 - j)),
{
    let r = [
        hand_masks(deal.hand(Seat::North)),
        hand_masks(deal.hand(Seat::East)),
        hand_masks(deal.hand(Seat::South)),
        hand_masks(deal.hand(Seat::West)),
    ];
    proof {
        assert(seat_of(0) == Seat::North);
        assert(seat_of(1) == Seat::East);
        assert(seat_of(2) == Seat::South);
        assert(seat_of(3) == Seat::West);
    }
    r
}

/// The solver's vulnerability code for par scores.
pub fn vulnerability(v: Vulnerability) -> (r: i32)
    ensures
        r == match v {
            Vulnerability::Love => 0i32,
            Vulnerability::Both => 1i32,
            Vulnerability::NS => 2i32,
            Vulnerability::EW => 3i32,
        },
{
    match v {
        Vulnerability::Love => 0,
        Vulnerability::Both => 1,
        Vulnerability::NS => 2,
        Vulnerability::EW => 3,
    }
}

} // verus!
