//! Distribution points.

use vstd::prelude::*;
use crate::card::Suit;
use crate::hand::{suit_ranks, Hand};
use crate::metrics::{hand_hcp, honors, honors_of, rank_count, aces, hcp, jacks, queens, tens};
use crate::shape::{len_of, Lens, Shape};

verus! {

/// How distribution is converted to points. A bidding system declares which method it assumes.
#[derive(Clone, Copy, PartialEq, Eq, Structural, Hash, Debug)]
pub enum DistMethod {
    /// Short-suit points: `Σ_suit [len = 0]·void + [len = 1]·singleton + [len = 2]·doubleton`.
    ShortSuit {
        /// Points for a void.
        void: u8,
        /// Points for a singleton.
        singleton: u8,
        /// Points for a doubleton.
        doubleton: u8,
    },
    /// Long-suit points: `Σ_suit max(0, len − 4)`.
    LongSuit,
    /// Bergen "starting points": long-suit points, +1 per suit of 4+ cards with 3+ honours, and
    /// the adjust-3 correction (+1 when `aces + tens − queens − jacks ≥ 3`, −1 when `≤ −3`).
    BergenStarting,
}

/// Short-suit points of one suit of length `len`.
pub open spec fn short_pts(len: int, void: int, singleton: int, doubleton: int) -> int {
    if len == 0 {
        void
    } else if len == 1 {
        singleton
    } else if len == 2 {
        doubleton
    } else {
        0
    }
}

/// Long-suit points of one suit of length `len`.
pub open spec fn long_pts(len: int) -> int {
    if len > 4 {
        len - 4
    } else {
        0
    }
}

/// The points of a shape under a shape-only method, before capping (0 for Bergen).
pub open spec fn shape_pts(t: Lens, m: DistMethod) -> int {
    match m {
        DistMethod::ShortSuit { void, singleton, doubleton } => short_pts(t.0, void as int, singleton as int, doubleton as int)
            + short_pts(t.1, void as int, singleton as int, doubleton as int) + short_pts(
            t.2,
            void as int,
            singleton as int,
            doubleton as int,
        ) + short_pts(t.3, void as int, singleton as int, doubleton as int),
        DistMethod::LongSuit => long_pts(t.0) + long_pts(t.1) + long_pts(t.2) + long_pts(t.3),
        DistMethod::BergenStarting => 0,
    }
}

/// `x · (a + b + c + e) == x·a + x·b + x·c + x·e`.
proof fn lemma_spread(x: int, a: int, b: int, c: int, e: int)
    ensures
        x * (a + b + c + e) == x * a + x * b + x * c + x * e,
{
    vstd::arithmetic::mul::lemma_mul_is_distributive_add(x, a + b + c, e);
    vstd::arithmetic::mul::lemma_mul_is_distributive_add(x, a + b, c);
    vstd::arithmetic::mul::lemma_mul_is_distributive_add(x, a, b);
}

/// Short-suit points count each void, singleton and doubleton at its own weight: the points
/// of a shape are `void · #voids + singleton · #singletons + doubleton · #doubletons`.
pub proof fn lemma_short_suit_points(t: Lens, void: u8, singleton: u8, doubleton: u8)
    ensures
        shape_pts(t, DistMethod::ShortSuit { void, singleton, doubleton }) == void * crate::shape::count4(t, 0)
            + singleton * crate::shape::count4(t, 1) + doubleton * crate::shape::count4(t, 2),
{
    let v = void as int;
    let s = singleton as int;
    let d = doubleton as int;
    let i0 = |x: int| if x == 0 { 1int } else { 0int };
    let i1 = |x: int| if x == 1 { 1int } else { 0int };
    let i2 = |x: int| if x == 2 { 1int } else { 0int };
    assert forall|x: int| #[trigger] short_pts(x, v, s, d) == v * i0(x) + s * i1(x) + d * i2(x) by {
        if x == 0 {
            assert(v * i0(x) == v && s * i1(x) == 0 && d * i2(x) == 0);
        } else if x == 1 {
            assert(v * i0(x) == 0 && s * i1(x) == s && d * i2(x) == 0);
        } else if x == 2 {
            assert(v * i0(x) == 0 && s * i1(x) == 0 && d * i2(x) == d);
        } else {
            assert(v * i0(x) == 0 && s * i1(x) == 0 && d * i2(x) == 0);
        }
    }
    let (a0, a1, a2, a3) = (short_pts(t.0, v, s, d), short_pts(t.1, v, s, d), short_pts(t.2, v, s, d), short_pts(t.3, v, s, d));
    assert(crate::shape::count4(t, 0) == i0(t.0) + i0(t.1) + i0(t.2) + i0(t.3));
    assert(crate::shape::count4(t, 1) == i1(t.0) + i1(t.1) + i1(t.2) + i1(t.3));
    assert(crate::shape::count4(t, 2) == i2(t.0) + i2(t.1) + i2(t.2) + i2(t.3));
    let (p0, p1, p2, p3) = (i0(t.0), i0(t.1), i0(t.2), i0(t.3));
    let (q0, q1, q2, q3) = (i1(t.0), i1(t.1), i1(t.2), i1(t.3));
    let (r0, r1, r2, r3) = (i2(t.0), i2(t.1), i2(t.2), i2(t.3));
    lemma_spread(v, p0, p1, p2, p3);
    lemma_spread(s, q0, q1, q2, q3);
    lemma_spread(d, r0, r1, r2, r3);
}

/// The short-suit points of a hand: `void · #voids + singleton · #singletons +
/// doubleton · #doubletons` over its suit lengths, capped at 127.
pub proof fn lemma_short_suit_hand(h: Set<int>, void: u8, singleton: u8, doubleton: u8)
    ensures
        dist_pts(h, DistMethod::ShortSuit { void, singleton, doubleton }) == cap_i8(
            void * crate::shape::count4(hand_lens(h), 0) + singleton * crate::shape::count4(hand_lens(h), 1)
                + doubleton * crate::shape::count4(hand_lens(h), 2),
        ),
{
    lemma_short_suit_points(hand_lens(h), void, singleton, doubleton);
}

/// `x` capped at the largest `i8`.
pub open spec fn cap_i8(x: int) -> int {
    if x > 127 {
        127
    } else {
        x
    }
}

/// The suit lengths of the card set `h`.
pub open spec fn hand_lens(h: Set<int>) -> Lens {
    (
        suit_ranks(h, 0).len() as int,
        suit_ranks(h, 1).len() as int,
        suit_ranks(h, 2).len() as int,
        suit_ranks(h, 3).len() as int,
    )
}

/// `1` for a suit of 4+ cards with 3+ honours.
pub open spec fn good_suit(s: Set<int>) -> int {
    if s.len() >= 4 && honors_of(s) >= 3 {
        1
    } else {
        0
    }
}

/// The adjust-3 correction for `aces + tens − queens − jacks`.
pub open spec fn adjust3(a: int) -> int {
    if a >= 3 {
        1
    } else if a <= -3 {
        -1
    } else {
        0
    }
}

/// Bergen starting points of the card set `h` (distribution part).
pub open spec fn bergen_pts(h: Set<int>) -> int {
    shape_pts(hand_lens(h), DistMethod::LongSuit) + good_suit(suit_ranks(h, 0)) + good_suit(
        suit_ranks(h, 1),
    ) + good_suit(suit_ranks(h, 2)) + good_suit(suit_ranks(h, 3)) + adjust3(
        rank_count(h, 12) + rank_count(h, 8) - rank_count(h, 10) - rank_count(h, 9),
    )
}

/// Distribution points of the card set `h` under `m`.
pub open spec fn dist_pts(h: Set<int>, m: DistMethod) -> int {
    match m {
        DistMethod::BergenStarting => bergen_pts(h),
        _ => cap_i8(shape_pts(hand_lens(h), m)),
    }
}

impl DistMethod {
    /// Goren 3-2-1 (void 3, singleton 2, doubleton 1).
    pub fn goren_321() -> (m: DistMethod)
        ensures
            m == (DistMethod::ShortSuit { void: 3, singleton: 2, doubleton: 1 }),
    {
        DistMethod::ShortSuit { void: 3, singleton: 2, doubleton: 1 }
    }

    /// Dummy points 5-3-1.
    pub fn dummy_531() -> (m: DistMethod)
        ensures
            m == (DistMethod::ShortSuit { void: 5, singleton: 3, doubleton: 1 }),
    {
        DistMethod::ShortSuit { void: 5, singleton: 3, doubleton: 1 }
    }

    /// `true` when the value depends on the shape alone (`ShortSuit`, `LongSuit`).
    pub fn is_shape_only(self) -> (r: bool)
        ensures
            r == !(self is BergenStarting),
    {
        match self {
            DistMethod::BergenStarting => false,
            _ => true,
        }
    }
}

/// Points of four lengths `0..=13` under a shape-only method, capped at 127.
fn lens_points(l: [u8; 4], method: DistMethod) -> (r: i8)
    requires
        forall|i: int| 0 <= i < 4 ==> l[i] <= 13,
    ensures
        r == cap_i8(shape_pts((l[0] as int, l[1] as int, l[2] as int, l[3] as int), method)),
{
    let mut total: u16 = 0;
    let mut k: usize = 0;
    while k < 4
        invariant
            k <= 4,
            forall|i: int| 0 <= i < 4 ==> l[i] <= 13,
            total <= 255 * k,
            total == (if k > 0 {
                suit_points(l[0] as int, method)
            } else {
                0
            }) + (if k > 1 {
                suit_points(l[1] as int, method)
            } else {
                0
            }) + (if k > 2 {
                suit_points(l[2] as int, method)
            } else {
                0
            }) + (if k > 3 {
                suit_points(l[3] as int, method)
            } else {
                0
            }),
        decreases 4 - k,
    {
        let len = l[k];
        let p: u8 = match method {
            DistMethod::ShortSuit { void, singleton, doubleton } => if len == 0 {
                void
            } else if len == 1 {
                singleton
            } else if len == 2 {
                doubleton
            } else {
                0
            },
            DistMethod::LongSuit => if len > 4 {
                len - 4
            } else {
                0
            },
            DistMethod::BergenStarting => 0,
        };
        total = total + p as u16;
        k = k + 1;
    }
    if total > 127 {
        127
    } else {
        total as i8
    }
}

/// The points of one suit of length `len` under a shape-only method.
pub open spec fn suit_points(len: int, m: DistMethod) -> int {
    match m {
        DistMethod::ShortSuit { void, singleton, doubleton } => short_pts(len, void as int, singleton as int, doubleton as int),
        DistMethod::LongSuit => long_pts(len),
        DistMethod::BergenStarting => 0,
    }
}

/// Distribution points as a function of the shape alone (capped at 127), or `None` for methods
/// that also look at the cards (see [`DistMethod::is_shape_only`]).
pub fn shape_points(shape: Shape, method: DistMethod) -> (r: Option<i8>)
    ensures
        r is Some <==> !(method is BergenStarting),
        r matches Some(p) ==> p == cap_i8(shape_pts(shape@, method)),
{
    match method {
        DistMethod::BergenStarting => None,
        _ => Some(lens_points(shape.lens(), method)),
    }
}

/// `1` for a suit of 4+ cards with 3+ honours.
fn good_suit_of(hand: Hand, suit: Suit) -> (r: i8)
    ensures
        r == good_suit(suit_ranks(hand@, suit.idx())),
{
    let h = hand.holding(suit);
    if h.len() >= 4 && honors(h) >= 3 {
        1
    } else {
        0
    }
}

/// Distribution points of `hand`. Signed because the Bergen adjust-3 correction can be negative.
/// Short-suit and long-suit points are capped at 127.
pub fn distribution_points(hand: Hand, method: DistMethod) -> (r: i8)
    ensures
        r == dist_pts(hand@, method),
{
    let shape = hand.shape();
    match method {
        DistMethod::BergenStarting => {
            let long = lens_points(shape.lens(), DistMethod::LongSuit);
            let good = good_suit_of(hand, Suit::Clubs) + good_suit_of(hand, Suit::Diamonds)
                + good_suit_of(hand, Suit::Hearts) + good_suit_of(hand, Suit::Spades);
            let a = aces(hand) as i16 + tens(hand) as i16 - queens(hand) as i16 - jacks(hand) as i16;
            let adj: i8 = if a >= 3 {
                1
            } else if a <= -3 {
                -1
            } else {
                0
            };
            proof {
                assert(long <= 36);
            }
            long + good + adj
        },
        _ => lens_points(shape.lens(), method),
    }
}

/// `hcp + distribution_points`, saturating at zero.
pub fn total_points(hand: Hand, method: DistMethod) -> (r: u8)
    ensures
        r == if hand_hcp(hand@) + dist_pts(hand@, method) < 0 {
            0
        } else {
            hand_hcp(hand@) + dist_pts(hand@, method)
        },
{
    let total = hcp(hand) as i16 + distribution_points(hand, method) as i16;
    if total < 0 {
        0
    } else {
        total as u8
    }
}

/// For a shape-only method, the distribution points of a hand are the points of its shape.
pub proof fn lemma_shape_points_agree(h: Set<int>, m: DistMethod)
    requires
        !(m is BergenStarting),
    ensures
        dist_pts(h, m) == cap_i8(shape_pts(hand_lens(h), m)),
{
}

} // verus!
