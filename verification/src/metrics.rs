//! Hand evaluation: high-card points, controls, honour counts, losing tricks and quick tricks.
//!
//! Whole-hand linear metrics are sums over the four suits of per-suit values. Per-suit metrics
//! that are not linear in the cards (losing trick count, quick tricks) are stated per holding
//! and tabulated for every one of the 8192 holdings by [`SuitTables::build`].

use vstd::prelude::*;
use crate::bits::{bitset64, lemma_set_one, lemma_set_or, popcount};
use crate::card::{Rank, Suit};
use crate::hand::{suit_ranks, Hand};
use crate::half::Half;
use crate::holding::{int_range, Holding};

verus! {

/// `1` when rank `r` is in `h`, else `0`.
pub open spec fn has(h: Set<int>, r: int) -> int {
    if h.contains(r) {
        1
    } else {
        0
    }
}

/// High-card points of a holding: A = 4, K = 3, Q = 2, J = 1.
pub open spec fn hcp_of(h: Set<int>) -> int {
    4 * has(h, 12) + 3 * has(h, 11) + 2 * has(h, 10) + has(h, 9)
}

/// Classic losing-trick count of a holding, doubled:
/// `2 × (min(len, 3) − A − [K ∧ len ≥ 2] − [Q ∧ len ≥ 3])`.
pub open spec fn losers2_of(h: Set<int>) -> int {
    let len = h.len() as int;
    if len == 0 {
        0
    } else {
        let base = if len < 3 {
            len
        } else {
            3
        };
        2 * (base - has(h, 12) - (if h.contains(11) && len >= 2 {
            1int
        } else {
            0int
        }) - (if h.contains(10) && len >= 3 {
            1int
        } else {
            0int
        }))
    }
}

/// "New" losing-trick count of a holding, doubled: missing A = 3, K = 2, Q = 1, each counted
/// while the suit is long enough for that honour to matter.
pub open spec fn nltc2_of(h: Set<int>) -> int {
    let len = h.len() as int;
    (if len >= 1 && !h.contains(12) {
        3int
    } else {
        0int
    }) + (if len >= 2 && !h.contains(11) {
        2int
    } else {
        0int
    }) + (if len >= 3 && !h.contains(10) {
        1int
    } else {
        0int
    })
}

/// Quick tricks of a holding, doubled: AK = 4, AQ = 3, A = 2, KQ = 2, Kx = 1.
pub open spec fn qt2_of(h: Set<int>) -> int {
    let a = h.contains(12);
    let k = h.contains(11);
    let q = h.contains(10);
    if a && k {
        4
    } else if a && q {
        3
    } else if a || (k && q) {
        2
    } else if k && h.len() >= 2 {
        1
    } else {
        0
    }
}

/// Number of honours among A K Q J T in a holding.
pub open spec fn honors_of(h: Set<int>) -> int {
    has(h, 12) + has(h, 11) + has(h, 10) + has(h, 9) + has(h, 8)
}

/// Number of cards of rank `r` in the card set `h`.
pub open spec fn rank_count(h: Set<int>, r: int) -> int {
    has(h, r) + has(h, 13 + r) + has(h, 26 + r) + has(h, 39 + r)
}

/// High-card points of a card set.
pub open spec fn hand_hcp(h: Set<int>) -> int {
    4 * rank_count(h, 12) + 3 * rank_count(h, 11) + 2 * rank_count(h, 10) + rank_count(h, 9)
}

/// The sum over the four suits of a per-holding value.
pub open spec fn suit_sum(h: Set<int>, f: spec_fn(Set<int>) -> int) -> int {
    f(suit_ranks(h, 0)) + f(suit_ranks(h, 1)) + f(suit_ranks(h, 2)) + f(suit_ranks(h, 3))
}

/// Which losing-trick count to use.
#[derive(Clone, Copy, PartialEq, Eq, Structural, Hash, Debug)]
pub enum LtcMethod {
    /// `min(len, 3) − A − [K ∧ len ≥ 2] − [Q ∧ len ≥ 3]` per suit.
    Classic,
    /// Missing A = 1.5, missing K = 1, missing Q = 0.5 per suit (while the suit is long enough).
    New,
}

/// Per-suit metrics for every one of the 8192 holdings, indexed by the holding's bit pattern.
///
/// Half-unit metrics are stored doubled (`losers2 = 2 × LTC`) so that everything is an integer.
pub struct SuitTables {
    /// High-card points (A = 4, K = 3, Q = 2, J = 1).
    pub hcp: [u8; 8192],
    /// Classic losing-trick count, doubled.
    pub losers2: [u8; 8192],
    /// "New" losing-trick count, doubled.
    pub nltc2: [u8; 8192],
    /// Quick tricks, doubled.
    pub qt2: [u8; 8192],
    /// Number of honours among A K Q J T.
    pub honors5: [u8; 8192],
}

/// The 52-bit mask of `rank` in all four suits.
pub fn rank_mask(rank: Rank) -> (r: u64)
    ensures
        bitset64(r) == Set::new(
            |x: int| x == rank.idx() || x == 13 + rank.idx() || x == 26 + rank.idx() || x == 39 + rank.idx(),
        ),
{
    let i = rank.index() as u64;
    let b0 = 1u64 << i;
    let b1 = 1u64 << (i + 13);
    let b2 = 1u64 << (i + 26);
    let b3 = 1u64 << (i + 39);
    proof {
        lemma_set_one(i);
        lemma_set_one((i + 13) as u64);
        lemma_set_one((i + 26) as u64);
        lemma_set_one((i + 39) as u64);
        assert((1u64 << i) << 13u64 == 1u64 << (i + 13)) by (bit_vector)
            requires
                i < 13,
        ;
        assert((1u64 << i) << 26u64 == 1u64 << (i + 26)) by (bit_vector)
            requires
                i < 13,
        ;
        assert((1u64 << i) << 39u64 == 1u64 << (i + 39)) by (bit_vector)
            requires
                i < 13,
        ;
        lemma_set_or(b0, b1);
        lemma_set_or(b0 | b1, b2);
        lemma_set_or(b0 | b1 | b2, b3);
        assert(bitset64(b0 | b1 | b2 | b3) =~= Set::new(
            |x: int| x == rank.idx() || x == 13 + rank.idx() || x == 26 + rank.idx() || x == 39 + rank.idx(),
        ));
    }
    b0 | b0 << 13 | b0 << 26 | b0 << 39
}

/// All four aces.
pub const ACES: u64 = 0x8004002001000;

/// All four kings.
pub const KINGS: u64 = 0x4002001000800;

/// All four queens.
pub const QUEENS: u64 = 0x2001000800400;

/// All four jacks.
pub const JACKS: u64 = 0x1000800400200;

/// All four tens.
pub const TENS: u64 = 0x800400200100;

/// `1` when `h` holds `rank`.
fn has_rank(h: Holding, rank: Rank) -> (r: u8)
    ensures
        r == has(h@, rank.idx()),
{
    if h.contains(rank) {
        1
    } else {
        0
    }
}

/// High-card points of one suit.
pub fn holding_hcp(holding: Holding) -> (r: u8)
    ensures
        r == hcp_of(holding@),
{
    4 * has_rank(holding, Rank::Ace) + 3 * has_rank(holding, Rank::King) + 2 * has_rank(
        holding,
        Rank::Queen,
    ) + has_rank(holding, Rank::Jack)
}

/// Classic losing-trick count of one suit, doubled.
fn holding_losers2(h: Holding) -> (r: u8)
    ensures
        r == losers2_of(h@),
{
    let len = h.len();
    if len == 0 {
        return 0;
    }
    let base = if len < 3 {
        len
    } else {
        3
    };
    let a = has_rank(h, Rank::Ace);
    let k: u8 = if h.contains(Rank::King) && len >= 2 {
        1
    } else {
        0
    };
    let q: u8 = if h.contains(Rank::Queen) && len >= 3 {
        1
    } else {
        0
    };
    2 * (base - a - k - q)
}

/// "New" losing-trick count of one suit, doubled.
fn holding_nltc2(h: Holding) -> (r: u8)
    ensures
        r == nltc2_of(h@),
{
    let len = h.len();
    let a: u8 = if len >= 1 && !h.contains(Rank::Ace) {
        3
    } else {
        0
    };
    let k: u8 = if len >= 2 && !h.contains(Rank::King) {
        2
    } else {
        0
    };
    let q: u8 = if len >= 3 && !h.contains(Rank::Queen) {
        1
    } else {
        0
    };
    a + k + q
}

/// Quick tricks of one suit, doubled.
fn holding_qt2(h: Holding) -> (r: u8)
    ensures
        r == qt2_of(h@),
{
    let a = h.contains(Rank::Ace);
    let k = h.contains(Rank::King);
    let q = h.contains(Rank::Queen);
    if a && k {
        4
    } else if a && q {
        3
    } else if a || (k && q) {
        2
    } else if k && h.len() >= 2 {
        1
    } else {
        0
    }
}

/// Number of honours (A K Q J T) in a suit.
pub fn honors(holding: Holding) -> (r: u8)
    ensures
        r == honors_of(holding@),
{
    has_rank(holding, Rank::Ace) + has_rank(holding, Rank::King) + has_rank(holding, Rank::Queen)
        + has_rank(holding, Rank::Jack) + has_rank(holding, Rank::Ten)
}

/// Suit quality for "3 of the top 5" style tests: the number of honours among A K Q J T.
pub fn suit_quality(holding: Holding) -> (r: u8)
    ensures
        r == honors_of(holding@),
{
    honors(holding)
}

/// Number of the `n` highest ranks (A, K, Q, …) held in a suit.
pub fn top_honors(holding: Holding, n: u8) -> (r: u8)
    ensures
        r == holding@.intersect(int_range(13 - (if n > 13 { 13 } else { n as int }), 13)).len(),
{
    holding.intersect(Holding::top_ranks(n)).len()
}

/// Every entry of the tables is the value of its holding: entry `i` is that of the holding
/// whose ranks are the set bits of `i`.
pub open spec fn tables_exact(t: SuitTables) -> bool {
    forall|i: int|
        0 <= i < 8192 ==> {
            let h = #[trigger] bitset64(i as u64);
            &&& t.hcp[i] == hcp_of(h)
            &&& t.losers2[i] == losers2_of(h)
            &&& t.nltc2[i] == nltc2_of(h)
            &&& t.qt2[i] == qt2_of(h)
            &&& t.honors5[i] == honors_of(h)
        }
}

/// The table of doubled losing-trick counts of a method.
pub open spec fn ltc_table(t: SuitTables, m: LtcMethod, i: int) -> int {
    match m {
        LtcMethod::Classic => t.losers2[i] as int,
        LtcMethod::New => t.nltc2[i] as int,
    }
}

/// The losing-trick count of a hand (what [`losers_with`] returns, in halves) is the sum of
/// the table entries of its four holdings, given by their bit patterns `b`.
pub proof fn lemma_losers_from_tables(t: SuitTables, hand: Set<int>, m: LtcMethod, b: Seq<int>)
    requires
        tables_exact(t),
        b.len() == 4,
        forall|s: int| 0 <= s < 4 ==> 0 <= #[trigger] b[s] < 8192 && bitset64(b[s] as u64) == suit_ranks(hand, s),
    ensures
        suit_sum(hand, |h: Set<int>| ltc2_of(m, h)) == ltc_table(t, m, b[0]) + ltc_table(t, m, b[1])
            + ltc_table(t, m, b[2]) + ltc_table(t, m, b[3]),
{
    assert(0 <= b[0] < 8192 && 0 <= b[1] < 8192 && 0 <= b[2] < 8192 && 0 <= b[3] < 8192);
    let h0 = bitset64(b[0] as u64);
    let h1 = bitset64(b[1] as u64);
    let h2 = bitset64(b[2] as u64);
    let h3 = bitset64(b[3] as u64);
    assert(ltc_table(t, m, b[0]) == ltc2_of(m, suit_ranks(hand, 0)));
    assert(ltc_table(t, m, b[1]) == ltc2_of(m, suit_ranks(hand, 1)));
    assert(ltc_table(t, m, b[2]) == ltc2_of(m, suit_ranks(hand, 2)));
    assert(ltc_table(t, m, b[3]) == ltc2_of(m, suit_ranks(hand, 3)));
}

impl SuitTables {
    /// Tabulates every per-suit metric for the 8192 holdings.
    pub fn build() -> (t: SuitTables)
        ensures
            tables_exact(t),
            forall|i: int|
                0 <= i < 8192 ==> {
                    &&& #[trigger] t.losers2[i] % 2 == 0
                    &&& t.losers2[i] <= 6
                    &&& t.nltc2[i] <= 6
                    &&& t.qt2[i] <= 4
                    &&& t.hcp[i] <= 10
                    &&& t.honors5[i] <= 5
                },
    {
        let mut hcp = [0u8; 8192];
        let mut losers2 = [0u8; 8192];
        let mut nltc2 = [0u8; 8192];
        let mut qt2 = [0u8; 8192];
        let mut honors5 = [0u8; 8192];
        let mut i: u16 = 0;
        while i < 8192
            invariant
                i <= 8192,
                forall|k: int|
                    0 <= k < i ==> {
                        let h = #[trigger] bitset64(k as u64);
                        &&& hcp[k] == hcp_of(h)
                        &&& losers2[k] == losers2_of(h)
                        &&& nltc2[k] == nltc2_of(h)
                        &&& qt2[k] == qt2_of(h)
                        &&& honors5[k] == honors_of(h)
                    },
                forall|k: int|
                    0 <= k < 8192 ==> {
                        &&& #[trigger] losers2[k] % 2 == 0
                        &&& losers2[k] <= 6
                        &&& nltc2[k] <= 6
                        &&& qt2[k] <= 4
                        &&& hcp[k] <= 10
                        &&& honors5[k] <= 5
                    },
            decreases 8192 - i,
        {
            let h = match Holding::from_bits(i) {
                Some(h) => h,
                None => {
                    return SuitTables { hcp, losers2, nltc2, qt2, honors5 };
                },
            };
            let j = i as usize;
            proof {
                lemma_holding_value_bounds(h@);
            }
            let ghost (o_hcp, o_l, o_n, o_q, o_h) = (hcp, losers2, nltc2, qt2, honors5);
            hcp.set(j, holding_hcp(h));
            losers2.set(j, holding_losers2(h));
            nltc2.set(j, holding_nltc2(h));
            qt2.set(j, holding_qt2(h));
            honors5.set(j, honors(h));
            proof {
                assert forall|k: int| 0 <= k < 8192 implies {
                    &&& #[trigger] losers2[k] % 2 == 0
                    &&& losers2[k] <= 6
                    &&& nltc2[k] <= 6
                    &&& qt2[k] <= 4
                    &&& hcp[k] <= 10
                    &&& honors5[k] <= 5
                } by {
                    if k != j {
                        assert(o_l[k] % 2 == 0);
                        assert(losers2[k] == o_l[k] && nltc2[k] == o_n[k] && qt2[k] == o_q[k]
                            && hcp[k] == o_hcp[k] && honors5[k] == o_h[k]);
                    }
                }
            }
            i = i + 1;
        }
        SuitTables { hcp, losers2, nltc2, qt2, honors5 }
    }
}

/// The holding of `suit` in `hand`, with its view as a suit of the hand.
fn suit_of_hand(hand: Hand, s: u8) -> (h: Holding)
    requires
        s < 4,
    ensures
        h@ == suit_ranks(hand@, s as int),
{
    hand.holding(Suit::from_index(s))
}

/// Number of cards of `rank` in `hand`.
fn count_rank(hand: Hand, rank: Rank) -> (r: u8)
    ensures
        r == rank_count(hand@, rank.idx()),
{
    let mut n: u8 = 0;
    let mut s: u8 = 0;
    while s < 4
        invariant
            s <= 4,
            n == (if s > 0 {
                has(hand@, rank.idx())
            } else {
                0
            }) + (if s > 1 {
                has(hand@, 13 + rank.idx())
            } else {
                0
            }) + (if s > 2 {
                has(hand@, 26 + rank.idx())
            } else {
                0
            }) + (if s > 3 {
                has(hand@, 39 + rank.idx())
            } else {
                0
            }),
        decreases 4 - s,
    {
        let h = suit_of_hand(hand, s);
        if h.contains(rank) {
            n = n + 1;
        }
        s = s + 1;
    }
    n
}

/// Number of aces.
pub fn aces(hand: Hand) -> (r: u8)
    ensures
        r == rank_count(hand@, 12),
{
    count_rank(hand, Rank::Ace)
}

/// Number of kings.
pub fn kings(hand: Hand) -> (r: u8)
    ensures
        r == rank_count(hand@, 11),
{
    count_rank(hand, Rank::King)
}

/// Number of queens.
pub fn queens(hand: Hand) -> (r: u8)
    ensures
        r == rank_count(hand@, 10),
{
    count_rank(hand, Rank::Queen)
}

/// Number of jacks.
pub fn jacks(hand: Hand) -> (r: u8)
    ensures
        r == rank_count(hand@, 9),
{
    count_rank(hand, Rank::Jack)
}

/// Number of tens.
pub fn tens(hand: Hand) -> (r: u8)
    ensures
        r == rank_count(hand@, 8),
{
    count_rank(hand, Rank::Ten)
}

/// High-card points: A = 4, K = 3, Q = 2, J = 1.
pub fn hcp(hand: Hand) -> (r: u8)
    ensures
        r == hand_hcp(hand@),
        r <= 40,
{
    4 * aces(hand) + 3 * kings(hand) + 2 * queens(hand) + jacks(hand)
}

/// Controls: A = 2, K = 1.
pub fn controls(hand: Hand) -> (r: u8)
    ensures
        r == 2 * rank_count(hand@, 12) + rank_count(hand@, 11),
{
    2 * aces(hand) + kings(hand)
}

/// The doubled per-suit losing-trick count of the chosen method.
pub open spec fn ltc2_of(method: LtcMethod, h: Set<int>) -> int {
    match method {
        LtcMethod::Classic => losers2_of(h),
        LtcMethod::New => nltc2_of(h),
    }
}

/// Classic losing-trick count of the whole hand (sum over suits).
pub fn losers(hand: Hand) -> (r: Half)
    ensures
        r@ == suit_sum(hand@, |h: Set<int>| losers2_of(h)),
        r@ <= 24,
{
    losers_with(hand, LtcMethod::Classic)
}

/// Losing-trick count with the chosen method (sum over suits).
pub fn losers_with(hand: Hand, method: LtcMethod) -> (r: Half)
    ensures
        r@ == suit_sum(hand@, |h: Set<int>| ltc2_of(method, h)),
        r@ <= 24,
{
    let mut halves: u8 = 0;
    let mut s: u8 = 0;
    while s < 4
        invariant
            s <= 4,
            halves <= 6 * s,
            halves == (if s > 0 {
                ltc2_of(method, suit_ranks(hand@, 0))
            } else {
                0
            }) + (if s > 1 {
                ltc2_of(method, suit_ranks(hand@, 1))
            } else {
                0
            }) + (if s > 2 {
                ltc2_of(method, suit_ranks(hand@, 2))
            } else {
                0
            }) + (if s > 3 {
                ltc2_of(method, suit_ranks(hand@, 3))
            } else {
                0
            }),
        decreases 4 - s,
    {
        let h = suit_of_hand(hand, s);
        let v = match method {
            LtcMethod::Classic => holding_losers2(h),
            LtcMethod::New => holding_nltc2(h),
        };
        assert(v <= 6);
        halves = halves + v;
        s = s + 1;
    }
    Half::from_halves(halves)
}

/// Quick tricks of the whole hand (sum over suits).
pub fn quick_tricks(hand: Hand) -> (r: Half)
    ensures
        r@ == suit_sum(hand@, |h: Set<int>| qt2_of(h)),
        r@ <= 16,
{
    let mut halves: u8 = 0;
    let mut s: u8 = 0;
    while s < 4
        invariant
            s <= 4,
            halves <= 4 * s,
            halves == (if s > 0 {
                qt2_of(suit_ranks(hand@, 0))
            } else {
                0
            }) + (if s > 1 {
                qt2_of(suit_ranks(hand@, 1))
            } else {
                0
            }) + (if s > 2 {
                qt2_of(suit_ranks(hand@, 2))
            } else {
                0
            }) + (if s > 3 {
                qt2_of(suit_ranks(hand@, 3))
            } else {
                0
            }),
        decreases 4 - s,
    {
        let h = suit_of_hand(hand, s);
        halves = halves + holding_qt2(h);
        s = s + 1;
    }
    Half::from_halves(halves)
}

/// A rank of a suit of `h` is the card `13 * s + r` of `h`.
proof fn lemma_suit_has(h: Set<int>, s: int, r: int)
    requires
        0 <= r < 13,
    ensures
        has(suit_ranks(h, s), r) == has(h, 13 * s + r),
{
}

/// The points of a suit of `h`, by cards.
proof fn lemma_suit_hcp(h: Set<int>, s: int)
    ensures
        hcp_of(suit_ranks(h, s)) == 4 * has(h, 13 * s + 12) + 3 * has(h, 13 * s + 11) + 2 * has(
            h,
            13 * s + 10,
        ) + has(h, 13 * s + 9),
{
    lemma_suit_has(h, s, 12);
    lemma_suit_has(h, s, 11);
    lemma_suit_has(h, s, 10);
    lemma_suit_has(h, s, 9);
}

/// The points of a hand are the sum of the points of its four suits.
pub proof fn lemma_hcp_by_suit(h: Set<int>)
    ensures
        hand_hcp(h) == suit_sum(h, |s: Set<int>| hcp_of(s)),
{
    lemma_suit_hcp(h, 0);
    lemma_suit_hcp(h, 1);
    lemma_suit_hcp(h, 2);
    lemma_suit_hcp(h, 3);
    let f = |s: Set<int>| hcp_of(s);
    assert(suit_sum(h, f) == hcp_of(suit_ranks(h, 0)) + hcp_of(suit_ranks(h, 1)) + hcp_of(
        suit_ranks(h, 2),
    ) + hcp_of(suit_ranks(h, 3)));
}

/// How many of the cards of `l` the set `h` holds.
pub open spec fn held(h: Set<int>, l: Seq<int>) -> int
    decreases l.len(),
{
    if l.len() == 0 {
        0
    } else {
        held(h, l.drop_last()) + has(h, l.last())
    }
}

/// `h` holds as many of the distinct cards of `l` as its intersection with them has members.
proof fn lemma_held(h: Set<int>, l: Seq<int>)
    requires
        h.finite(),
        l.no_duplicates(),
    ensures
        h.intersect(l.to_set()).len() == held(h, l),
    decreases l.len(),
{
    if l.len() == 0 {
        assert(h.intersect(l.to_set()) =~= Set::<int>::empty());
    } else {
        let k = l.drop_last();
        let x = l.last();
        assert(k.no_duplicates()) by {
            assert forall|i: int, j: int| 0 <= i < k.len() && 0 <= j < k.len() && i != j implies k[i] != k[j] by {
                assert(k[i] == l[i] && k[j] == l[j]);
            }
        }
        lemma_held(h, k);
        assert(!k.to_set().contains(x)) by {
            if k.to_set().contains(x) {
                let i = choose|i: int| 0 <= i < k.len() && k[i] == x;
                assert(l[i] == l[l.len() - 1]);
            }
        }
        assert(l.to_set() =~= k.to_set().insert(x)) by {
            assert forall|y: int| l.to_set().contains(y) implies k.to_set().insert(x).contains(y) by {
                let i = choose|i: int| 0 <= i < l.len() && l[i] == y;
                if i < k.len() {
                    assert(k[i] == y);
                }
            }
            assert forall|y: int| k.to_set().insert(x).contains(y) implies l.to_set().contains(y) by {
                if y == x {
                    assert(l[l.len() - 1] == y);
                } else {
                    let i = choose|i: int| 0 <= i < k.len() && k[i] == y;
                    assert(l[i] == y);
                }
            }
        }
        vstd::set_lib::lemma_len_intersect(h, k.to_set());
        if h.contains(x) {
            assert(h.intersect(l.to_set()) =~= h.intersect(k.to_set()).insert(x));
        } else {
            assert(h.intersect(l.to_set()) =~= h.intersect(k.to_set()));
        }
    }
}

/// A hand of at most thirteen cards has at most 37 points.
pub proof fn lemma_hcp_at_most_37(h: Set<int>)
    requires
        h.finite(),
        h.len() <= 13,
    ensures
        hand_hcp(h) <= 37,
{
    let l = seq![9int, 10, 11, 12, 22, 23, 24, 25, 35, 36, 37, 38, 48, 49, 50, 51];
    assert(l.no_duplicates()) by {
        assert forall|i: int, j: int| 0 <= i < j < l.len() implies l[i] < l[j] by {}
    }
    lemma_held(h, l);
    vstd::set_lib::lemma_len_intersect(h, l.to_set());
    assert(held(h, l) == rank_count(h, 12) + rank_count(h, 11) + rank_count(h, 10) + rank_count(h, 9)) by {
        reveal_with_fuel(held, 17);
    }
}

/// Quick tricks of a holding, in halves: an ace is worth at least one quick trick; ace and king
/// two; ace and queen without the king one and a half; king and queen without the ace one;
/// without ace and king none; never more than two.
pub proof fn lemma_quick_trick_values(h: Set<int>)
    ensures
        h.contains(12) ==> qt2_of(h) >= 2,
        h.contains(12) && h.contains(11) ==> qt2_of(h) == 4,
        h.contains(12) && !h.contains(11) && h.contains(10) ==> qt2_of(h) == 3,
        h.contains(12) && !h.contains(11) && !h.contains(10) ==> qt2_of(h) == 2,
        !h.contains(12) && h.contains(11) && h.contains(10) ==> qt2_of(h) == 2,
        !h.contains(12) && !h.contains(11) ==> qt2_of(h) == 0,
        0 <= qt2_of(h) <= 4,
{
}

/// Every ace of a hand is worth at least one quick trick: the quick tricks of a hand, in
/// halves, are at least twice its number of aces.
pub proof fn lemma_quick_tricks_of_aces(h: Set<int>)
    ensures
        suit_sum(h, |s: Set<int>| qt2_of(s)) >= 2 * rank_count(h, 12),
{
    lemma_suit_has(h, 0, 12);
    lemma_suit_has(h, 1, 12);
    lemma_suit_has(h, 2, 12);
    lemma_suit_has(h, 3, 12);
    lemma_quick_trick_values(suit_ranks(h, 0));
    lemma_quick_trick_values(suit_ranks(h, 1));
    lemma_quick_trick_values(suit_ranks(h, 2));
    lemma_quick_trick_values(suit_ranks(h, 3));
    let f = |s: Set<int>| qt2_of(s);
    assert(suit_sum(h, f) == qt2_of(suit_ranks(h, 0)) + qt2_of(suit_ranks(h, 1)) + qt2_of(suit_ranks(h, 2))
        + qt2_of(suit_ranks(h, 3)));
}

/// The quick-trick table gives at least one quick trick (two halves) for every holding with
/// the ace (bit 12).
pub proof fn lemma_quick_trick_table_ace(t: SuitTables, x: u64)
    requires
        tables_exact(t),
        x < 8192,
        x & 0x1000 != 0,
    ensures
        t.qt2[x as int] >= 2,
{
    lemma_holding_bits(x);
    assert(bitset64((x as int) as u64) == bitset64(x));
    lemma_quick_trick_values(bitset64(x));
}

/// The ranges of the per-holding values.
pub proof fn lemma_holding_value_bounds(h: Set<int>)
    ensures
        0 <= losers2_of(h) <= 6,
        losers2_of(h) % 2 == 0,
        0 <= nltc2_of(h) <= 6,
        0 <= qt2_of(h) <= 4,
        0 <= hcp_of(h) <= 10,
        0 <= honors_of(h) <= 5,
{
}

/// The per-holding values read off the bits of a holding: bit 12 is the ace, 11 the king,
/// 10 the queen, 9 the jack and 8 the ten, and the length is the number of set bits.
pub proof fn lemma_holding_bits(x: u64)
    requires
        x < 8192,
    ensures
        bitset64(x).len() == popcount(x, 13),
        has(bitset64(x), 12) == (if x & 0x1000 != 0 { 1int } else { 0int }),
        has(bitset64(x), 11) == (if x & 0x800 != 0 { 1int } else { 0int }),
        has(bitset64(x), 10) == (if x & 0x400 != 0 { 1int } else { 0int }),
        has(bitset64(x), 9) == (if x & 0x200 != 0 { 1int } else { 0int }),
        has(bitset64(x), 8) == (if x & 0x100 != 0 { 1int } else { 0int }),
{
    assert(x >> 13u64 == 0) by (bit_vector)
        requires
            x < 8192,
    ;
    crate::bits::lemma_bitset_below(x, 13);
    crate::bits::lemma_popcount_len(x, 13);
    assert(bitset64(x) =~= crate::bits::bitset64_below(x, 13));
    assert(((x >> 12u64) & 1 == 1) == (x & 0x1000 != 0)) by (bit_vector);
    assert(((x >> 11u64) & 1 == 1) == (x & 0x800 != 0)) by (bit_vector);
    assert(((x >> 10u64) & 1 == 1) == (x & 0x400 != 0)) by (bit_vector);
    assert(((x >> 9u64) & 1 == 1) == (x & 0x200 != 0)) by (bit_vector);
    assert(((x >> 8u64) & 1 == 1) == (x & 0x100 != 0)) by (bit_vector);
    assert(bitset64(x).contains(12) == crate::bits::bit64(x, 12));
    assert(bitset64(x).contains(11) == crate::bits::bit64(x, 11));
    assert(bitset64(x).contains(10) == crate::bits::bit64(x, 10));
    assert(bitset64(x).contains(9) == crate::bits::bit64(x, 9));
    assert(bitset64(x).contains(8) == crate::bits::bit64(x, 8));
}

/// Metric values are never negative.
pub proof fn lemma_metric_nonneg(h: Set<int>)
    ensures
        forall|s: Set<int>| 0 <= #[trigger] losers2_of(s),
        forall|s: Set<int>| 0 <= #[trigger] nltc2_of(s),
        forall|s: Set<int>| 0 <= #[trigger] qt2_of(s),
        forall|s: Set<int>| 0 <= #[trigger] honors_of(s),
        forall|r: int| 0 <= #[trigger] rank_count(h, r),
{
}

} // verus!
