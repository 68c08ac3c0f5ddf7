//! Suit-length patterns: ordered shapes and order-free classes.
//!
//! There are `C(16, 3) = 560` ordered 13-card shapes and 39 order-free classes. Shapes are
//! numbered lexicographically on `(clubs, diamonds, hearts)`; [`shape_index`] is that
//! numbering and is a bijection onto `0..560` (see [`lemma_shape_index_bijection`]).

use vstd::prelude::*;
use crate::card::Suit;

verus! {

/// Four suit lengths in suit order (clubs, diamonds, hearts, spades).
pub type Lens = (int, int, int, int);

/// The length of suit `k` in `t`.
pub open spec fn len_of(t: Lens, k: int) -> int {
    if k == 0 {
        t.0
    } else if k == 1 {
        t.1
    } else if k == 2 {
        t.2
    } else {
        t.3
    }
}

/// Sum of the four lengths.
pub open spec fn total_of(t: Lens) -> int {
    t.0 + t.1 + t.2 + t.3
}

/// Every length in `0..=13`.
pub open spec fn lens_ok(t: Lens) -> bool {
    0 <= t.0 <= 13 && 0 <= t.1 <= 13 && 0 <= t.2 <= 13 && 0 <= t.3 <= 13
}

/// A 13-card shape.
pub open spec fn valid13(t: Lens) -> bool {
    lens_ok(t) && total_of(t) == 13
}

/// Number of ordered shapes whose club length is below `c` (`T3[c]`; `560` for `c = 14`).
pub open spec fn t3(c: int) -> int {
    if c <= 0 {
        0
    } else if c == 1 {
        105
    } else if c == 2 {
        196
    } else if c == 3 {
        274
    } else if c == 4 {
        340
    } else if c == 5 {
        395
    } else if c == 6 {
        440
    } else if c == 7 {
        476
    } else if c == 8 {
        504
    } else if c == 9 {
        525
    } else if c == 10 {
        540
    } else if c == 11 {
        550
    } else if c == 12 {
        556
    } else if c == 13 {
        559
    } else {
        560
    }
}

/// Number of `(diamonds, hearts)` pairs with diamonds below `d`, for `c` clubs.
pub open spec fn dpart(c: int, d: int) -> int {
    d * (14 - c) - (d * d - d) / 2
}

/// The lexicographic rank of the shape `(c, d, h, 13 - c - d - h)`.
pub open spec fn index_of(c: int, d: int, h: int) -> int {
    t3(c) + dpart(c, d) + h
}

/// The index of a 13-card shape.
pub open spec fn shape_idx(t: Lens) -> int {
    index_of(t.0, t.1, t.2)
}

/// The 13-card shape with index `j` (meaningful for `0 <= j < 560`).
pub open spec fn shape_at(j: int) -> Lens {
    choose|t: Lens| valid13(t) && shape_idx(t) == j
}

proof fn lemma_dpart_step(c: int, d: int)
    requires
        0 <= c <= 13,
        0 <= d <= 12,
    ensures
        dpart(c, d + 1) == dpart(c, d) + 14 - c - d,
{
    assert((d + 1) * (14 - c) == d * (14 - c) + (14 - c)) by (nonlinear_arith);
    assert((d + 1) * (d + 1) - (d + 1) == (d * d - d) + 2 * d) by (nonlinear_arith);
    let x = d * d - d;
    assert((x + 2 * d) / 2 == x / 2 + d);
}

proof fn lemma_t3_step(c: int)
    requires
        0 <= c <= 13,
    ensures
        t3(c + 1) == t3(c) + dpart(c, 13 - c) + 1,
{
    if c == 0 {
        assert(dpart(0, 13) == 104);

    } else if c == 1 {
        assert(dpart(1, 12) == 90);

    } else if c == 2 {
        assert(dpart(2, 11) == 77);

    } else if c == 3 {
        assert(dpart(3, 10) == 65);

    } else if c == 4 {
        assert(dpart(4, 9) == 54);

    } else if c == 5 {
        assert(dpart(5, 8) == 44);

    } else if c == 6 {
        assert(dpart(6, 7) == 35);

    } else if c == 7 {
        assert(dpart(7, 6) == 27);

    } else if c == 8 {
        assert(dpart(8, 5) == 20);

    } else if c == 9 {
        assert(dpart(9, 4) == 14);

    } else if c == 10 {
        assert(dpart(10, 3) == 9);

    } else if c == 11 {
        assert(dpart(11, 2) == 5);

    } else if c == 12 {
        assert(dpart(12, 1) == 2);

    } else if c == 13 {
        assert(dpart(13, 0) == 0);
    }
}

proof fn lemma_dpart_mono(c: int, d: int, e: int)
    requires
        0 <= c <= 13,
        0 <= d <= e <= 13 - c,
    ensures
        dpart(c, d) + (e - d) <= dpart(c, e),
    decreases e - d,
{
    if d < e {
        lemma_dpart_step(c, d);
        lemma_dpart_mono(c, d + 1, e);
    }
}

proof fn lemma_dpart_nonneg(c: int, d: int)
    requires
        0 <= c <= 13,
        0 <= d <= 13 - c,
    ensures
        dpart(c, d) >= d,
{
    lemma_dpart_mono(c, 0, d);
}

/// Bounds of the index within its club block.
proof fn lemma_index_block(c: int, d: int, h: int)
    requires
        0 <= c <= 13,
        0 <= d,
        0 <= h,
        c + d + h <= 13,
    ensures
        t3(c) <= index_of(c, d, h) < t3(c + 1),
        d < 13 - c ==> dpart(c, d) + h < dpart(c, d + 1),
{
    lemma_dpart_mono(c, d, 13 - c);
    lemma_dpart_nonneg(c, d);
    lemma_t3_step(c);
    if d < 13 - c {
        lemma_dpart_step(c, d);
    }
}

proof fn lemma_t3_mono(c: int, e: int)
    requires
        0 <= c <= e <= 14,
    ensures
        t3(c) + (e - c) <= t3(e),
    decreases e - c,
{
    if c < e {
        lemma_t3_step(c);
        lemma_dpart_nonneg(c, 13 - c);
        lemma_t3_mono(c + 1, e);
    }
}

/// Every 13-card shape has an index in `0..560`.
pub proof fn lemma_shape_idx_range(t: Lens)
    requires
        valid13(t),
    ensures
        0 <= shape_idx(t) < 560,
{
    lemma_index_block(t.0, t.1, t.2);
    lemma_t3_mono(t.0 + 1, 14);
    lemma_t3_mono(0, t.0);
}

/// Distinct 13-card shapes have distinct indices.
pub proof fn lemma_shape_idx_injective(a: Lens, b: Lens)
    requires
        valid13(a),
        valid13(b),
        shape_idx(a) == shape_idx(b),
    ensures
        a == b,
{
    lemma_index_block(a.0, a.1, a.2);
    lemma_index_block(b.0, b.1, b.2);
    if a.0 < b.0 {
        lemma_t3_mono(a.0 + 1, b.0);
        assert(false);
    } else if b.0 < a.0 {
        lemma_t3_mono(b.0 + 1, a.0);
        assert(false);
    } else {
        let c = a.0;
        if a.1 < b.1 {
            lemma_dpart_mono(c, a.1 + 1, b.1);
            assert(false);
        } else if b.1 < a.1 {
            lemma_dpart_mono(c, b.1 + 1, a.1);
            assert(false);
        }
    }
}

proof fn lemma_find_d(j: int, c: int, d: int)
    requires
        0 <= c <= 13,
        0 <= d <= 13 - c,
        t3(c) + dpart(c, d) <= j < t3(c + 1),
    ensures
        exists|t: Lens| valid13(t) && shape_idx(t) == j,
    decreases 13 - c - d,
{
    lemma_t3_step(c);
    if d == 13 - c {
        let t = (c, d, 0int, 0int);
        assert(valid13(t) && shape_idx(t) == j);
    } else {
        lemma_dpart_step(c, d);
        if j < t3(c) + dpart(c, d + 1) {
            let h = j - t3(c) - dpart(c, d);
            let t = (c, d, h, 13 - c - d - h);
            assert(valid13(t) && shape_idx(t) == j);
        } else {
            lemma_find_d(j, c, d + 1);
        }
    }
}

proof fn lemma_find_c(j: int, c: int)
    requires
        0 <= c <= 13,
        t3(c) <= j < 560,
    ensures
        exists|t: Lens| valid13(t) && shape_idx(t) == j,
    decreases 13 - c,
{
    lemma_t3_mono(c + 1, 14);
    if j < t3(c + 1) {
        lemma_find_d(j, c, 0);
    } else {
        lemma_find_c(j, c + 1);
    }
}

/// `a` comes before `b` in the order of clubs, then diamonds, then hearts.
pub open spec fn lex_less(a: Lens, b: Lens) -> bool {
    ||| a.0 < b.0
    ||| (a.0 == b.0 && a.1 < b.1)
    ||| (a.0 == b.0 && a.1 == b.1 && a.2 < b.2)
}

/// The shape index follows the order of clubs, then diamonds, then hearts.
pub proof fn lemma_shape_order(a: Lens, b: Lens)
    requires
        valid13(a),
        valid13(b),
        lex_less(a, b),
    ensures
        shape_idx(a) < shape_idx(b),
{
    lemma_index_block(a.0, a.1, a.2);
    lemma_index_block(b.0, b.1, b.2);
    if a.0 < b.0 {
        lemma_t3_mono(a.0 + 1, b.0);
    } else if a.1 < b.1 {
        lemma_dpart_mono(a.0, a.1 + 1, b.1);
    }
}

/// The table of shapes is in increasing order of clubs, then diamonds, then hearts.
pub proof fn lemma_shapes_ascending(i: int)
    requires
        0 <= i < 559,
    ensures
        lex_less(shape_at(i), shape_at(i + 1)),
{
    lemma_shape_index_bijection();
    let a = shape_at(i);
    let b = shape_at(i + 1);
    assert(valid13(a) && shape_idx(a) == i);
    assert(valid13(b) && shape_idx(b) == i + 1);
    if !lex_less(a, b) {
        if a.0 == b.0 && a.1 == b.1 && a.2 == b.2 {
            assert(a == b);
        } else {
            lemma_shape_order(b, a);
        }
    }
}

/// The shape index is a bijection between 13-card shapes and `0..560`.
pub proof fn lemma_shape_index_bijection()
    ensures
        forall|t: Lens| valid13(t) ==> 0 <= #[trigger] shape_idx(t) < 560,
        forall|t: Lens| valid13(t) ==> #[trigger] shape_at(shape_idx(t)) == t,
        forall|j: int|
            0 <= j < 560 ==> valid13(#[trigger] shape_at(j)) && shape_idx(shape_at(j)) == j,
{
    assert forall|t: Lens| valid13(t) implies 0 <= #[trigger] shape_idx(t) < 560 by {
        lemma_shape_idx_range(t);
    }
    assert forall|j: int| 0 <= j < 560 implies valid13(#[trigger] shape_at(j)) && shape_idx(
        shape_at(j),
    ) == j by {
        lemma_find_c(j, 0);
    }
    assert forall|t: Lens| valid13(t) implies #[trigger] shape_at(shape_idx(t)) == t by {
        lemma_shape_idx_range(t);
        let j = shape_idx(t);
        lemma_find_c(j, 0);
        lemma_shape_idx_injective(shape_at(j), t);
    }
}

/// `shape_at` inverts `shape_idx`.
pub proof fn lemma_shape_at(t: Lens)
    requires
        valid13(t),
    ensures
        shape_at(shape_idx(t)) == t,
        0 <= shape_idx(t) < 560,
{
    lemma_shape_index_bijection();
    assert(shape_at(shape_idx(t)) == t);
}

/// `shape_at(j)` is a 13-card shape with index `j`.
pub proof fn lemma_shape_at_index(j: int)
    requires
        0 <= j < 560,
    ensures
        valid13(shape_at(j)),
        shape_idx(shape_at(j)) == j,
{
    lemma_find_c(j, 0);
}

fn t3_value(c: u8) -> (r: u16)
    requires
        c <= 13,
    ensures
        r == t3(c as int),
{
    match c {
        0 => 0,
        1 => 105,
        2 => 196,
        3 => 274,
        4 => 340,
        5 => 395,
        6 => 440,
        7 => 476,
        8 => 504,
        9 => 525,
        10 => 540,
        11 => 550,
        12 => 556,
        _ => 559,
    }
}

/// Bijection `{(c, d, h) : c + d + h <= 13} -> 0..560`, lexicographic on `(c, d, h)`.
pub fn shape_index(clubs: u8, diamonds: u8, hearts: u8) -> (r: u16)
    requires
        clubs as int + diamonds as int + hearts as int <= 13,
    ensures
        r == index_of(clubs as int, diamonds as int, hearts as int),
        r < 560,
{
    let c = clubs as u16;
    let d = diamonds as u16;
    let h = hearts as u16;
    proof {
        lemma_dpart_nonneg(c as int, d as int);
        assert(d * d <= 169) by (nonlinear_arith)
            requires
                d <= 13,
        ;
        assert(d * (14 - c) <= 13 * 14) by (nonlinear_arith)
            requires
                d <= 13,
                c <= 13,
        ;
        assert(d * d >= d) by (nonlinear_arith);
        let t = (c as int, d as int, h as int, 13 - c - d - h);
        lemma_shape_idx_range(t);
    }
    t3_value(clubs) + d * (14 - c) - (d * d - d) / 2 + h
}

} // verus!

verus! {

/// Counts the occurrences of `v` in `t`.
pub open spec fn count4(t: Lens, v: int) -> int {
    (if t.0 == v { 1int } else { 0int }) + (if t.1 == v { 1int } else { 0int }) + (if t.2 == v {
        1int
    } else {
        0int
    }) + (if t.3 == v { 1int } else { 0int })
}

/// `a` and `b` hold the same lengths in some order.
pub open spec fn same_lens(a: Lens, b: Lens) -> bool {
    forall|v: int| #[trigger] count4(a, v) == count4(b, v)
}

/// Lengths in descending order.
pub open spec fn sorted_desc(t: Lens) -> bool {
    t.0 >= t.1 >= t.2 >= t.3
}

/// The largest length.
pub open spec fn max4(t: Lens) -> int {
    let m1 = if t.0 >= t.1 { t.0 } else { t.1 };
    let m2 = if t.2 >= t.3 { t.2 } else { t.3 };
    if m1 >= m2 { m1 } else { m2 }
}

/// The smallest length.
pub open spec fn min4(t: Lens) -> int {
    let m1 = if t.0 <= t.1 { t.0 } else { t.1 };
    let m2 = if t.2 <= t.3 { t.2 } else { t.3 };
    if m1 <= m2 { m1 } else { m2 }
}

/// The lengths sorted in descending order.
pub open spec fn sort_desc(t: Lens) -> Lens {
    choose|s: Lens| sorted_desc(s) && same_lens(s, t)
}

/// 4-3-3-3, 4-4-3-2 or 5-3-3-2.
pub open spec fn balanced_class(t: Lens) -> bool {
    t == (4int, 3int, 3int, 3int) || t == (4int, 4int, 3int, 2int) || t == (5int, 3int, 3int, 2int)
}

/// Balanced, or 5-4-2-2 or 6-3-2-2.
pub open spec fn semi_balanced_class(t: Lens) -> bool {
    balanced_class(t) || t == (5int, 4int, 2int, 2int) || t == (6int, 3int, 2int, 2int)
}

/// The `i`-th order-free 13-card pattern, in order of first appearance among the shapes.
pub open spec fn class_table(i: int) -> Lens {
    if i == 0 {
        (13, 0, 0, 0)
    } else if i == 1 {
        (12, 1, 0, 0)
    } else if i == 2 {
        (11, 2, 0, 0)
    } else if i == 3 {
        (10, 3, 0, 0)
    } else if i == 4 {
        (9, 4, 0, 0)
    } else if i == 5 {
        (8, 5, 0, 0)
    } else if i == 6 {
        (7, 6, 0, 0)
    } else if i == 7 {
        (11, 1, 1, 0)
    } else if i == 8 {
        (10, 2, 1, 0)
    } else if i == 9 {
        (9, 3, 1, 0)
    } else if i == 10 {
        (8, 4, 1, 0)
    } else if i == 11 {
        (7, 5, 1, 0)
    } else if i == 12 {
        (6, 6, 1, 0)
    } else if i == 13 {
        (9, 2, 2, 0)
    } else if i == 14 {
        (8, 3, 2, 0)
    } else if i == 15 {
        (7, 4, 2, 0)
    } else if i == 16 {
        (6, 5, 2, 0)
    } else if i == 17 {
        (7, 3, 3, 0)
    } else if i == 18 {
        (6, 4, 3, 0)
    } else if i == 19 {
        (5, 5, 3, 0)
    } else if i == 20 {
        (5, 4, 4, 0)
    } else if i == 21 {
        (10, 1, 1, 1)
    } else if i == 22 {
        (9, 2, 1, 1)
    } else if i == 23 {
        (8, 3, 1, 1)
    } else if i == 24 {
        (7, 4, 1, 1)
    } else if i == 25 {
        (6, 5, 1, 1)
    } else if i == 26 {
        (8, 2, 2, 1)
    } else if i == 27 {
        (7, 3, 2, 1)
    } else if i == 28 {
        (6, 4, 2, 1)
    } else if i == 29 {
        (5, 5, 2, 1)
    } else if i == 30 {
        (6, 3, 3, 1)
    } else if i == 31 {
        (5, 4, 3, 1)
    } else if i == 32 {
        (4, 4, 4, 1)
    } else if i == 33 {
        (7, 2, 2, 2)
    } else if i == 34 {
        (6, 3, 2, 2)
    } else if i == 35 {
        (5, 4, 2, 2)
    } else if i == 36 {
        (5, 3, 3, 2)
    } else if i == 37 {
        (4, 4, 3, 2)
    } else {
        (4, 3, 3, 3)
    }
}

/// Sorted arrangements of the same lengths are equal.
pub proof fn lemma_sorted_unique(a: Lens, b: Lens)
    requires
        sorted_desc(a),
        sorted_desc(b),
        same_lens(a, b),
    ensures
        a == b,
{
    assert(count4(a, a.0) == count4(b, a.0));
    assert(count4(a, b.0) == count4(b, b.0));
    assert(count4(a, a.1) == count4(b, a.1));
    assert(count4(a, b.1) == count4(b, b.1));
    assert(count4(a, a.2) == count4(b, a.2));
    assert(count4(a, b.2) == count4(b, b.2));
    assert(count4(a, a.3) == count4(b, a.3));
    assert(count4(a, b.3) == count4(b, b.3));
}

/// Rearranged lengths have the same total.
pub proof fn lemma_same_lens_total(a: Lens, b: Lens)
    requires
        same_lens(a, b),
    ensures
        total_of(a) == total_of(b),
{
    assert(count4(a, a.0) == count4(b, a.0));
    assert(count4(a, b.0) == count4(b, b.0));
    assert(count4(a, a.1) == count4(b, a.1));
    assert(count4(a, b.1) == count4(b, b.1));
    assert(count4(a, a.2) == count4(b, a.2));
    assert(count4(a, b.2) == count4(b, b.2));
    assert(count4(a, a.3) == count4(b, a.3));
    assert(count4(a, b.3) == count4(b, b.3));
}

/// `sort_desc` is the sorted arrangement.
pub proof fn lemma_sort_desc(t: Lens, s: Lens)
    requires
        sorted_desc(s),
        same_lens(s, t),
    ensures
        sort_desc(t) == s,
{
    let r = sort_desc(t);
    assert(sorted_desc(r) && same_lens(r, t));
    assert(same_lens(r, s)) by {
        assert forall|v: int| #[trigger] count4(r, v) == count4(s, v) by {
            assert(count4(r, v) == count4(t, v));
            assert(count4(s, v) == count4(t, v));
        }
    }
    lemma_sorted_unique(r, s);
}

/// The four suit lengths of a hand, in suit order.
///
/// A `Shape` is "ordered": 5=4=3=1 and 4=5=3=1 are different shapes. The order-free pattern is
/// [`ShapeClass`].
#[derive(Clone, Copy, PartialEq, Eq, Structural, Hash, Debug)]
pub struct Shape {
    c: u8,
    d: u8,
    h: u8,
    s: u8,
}

impl View for Shape {
    type V = Lens;

    /// The lengths (clubs, diamonds, hearts, spades).
    closed spec fn view(&self) -> Lens {
        (self.c as int, self.d as int, self.h as int, self.s as int)
    }
}

impl Shape {
    #[verifier::type_invariant]
    pub(crate) closed spec fn inv(self) -> bool {
        self.c <= 13 && self.d <= 13 && self.h <= 13 && self.s <= 13
    }

    /// The shape with the given lengths.
    pub closed spec fn of_lens(t: Lens) -> Shape {
        Shape { c: t.0 as u8, d: t.1 as u8, h: t.2 as u8, s: t.3 as u8 }
    }

    /// Every shape is `of_lens` of its lengths.
    pub proof fn lemma_of_view(s: Shape)
        ensures
            Shape::of_lens(s@) == s,
    {
    }

    /// Shapes are determined by their lengths.
    pub proof fn lemma_view_eq(a: Shape, b: Shape)
        requires
            a@ == b@,
        ensures
            a == b,
    {
    }

    /// Builds a shape from the four suit lengths in suit order (clubs first).
    pub fn new(clubs: u8, diamonds: u8, hearts: u8, spades: u8) -> (r: Shape)
        requires
            clubs <= 13,
            diamonds <= 13,
            hearts <= 13,
            spades <= 13,
        ensures
            r@ == (clubs as int, diamonds as int, hearts as int, spades as int),
    {
        Shape { c: clubs, d: diamonds, h: hearts, s: spades }
    }

    /// Builds a shape from lengths indexed by suit (clubs first).
    pub fn from_lens(lens: [u8; 4]) -> (r: Shape)
        requires
            forall|i: int| 0 <= i < 4 ==> lens[i] <= 13,
        ensures
            r@ == (lens[0] as int, lens[1] as int, lens[2] as int, lens[3] as int),
    {
        Shape::new(lens[0], lens[1], lens[2], lens[3])
    }

    /// The lengths packed as nibbles (clubs in the low nibble).
    pub fn bits(self) -> (r: u16)
        ensures
            r == self@.0 + 16 * self@.1 + 256 * self@.2 + 4096 * self@.3,
    {
        proof {
            use_type_invariant(self);
        }
        self.c as u16 + 16 * self.d as u16 + 256 * self.h as u16 + 4096 * self.s as u16
    }

    /// Length of `suit`.
    pub fn len(self, suit: Suit) -> (r: u8)
        ensures
            r == len_of(self@, suit.idx()),
            r <= 13,
    {
        proof {
            use_type_invariant(self);
        }
        match suit {
            Suit::Clubs => self.c,
            Suit::Diamonds => self.d,
            Suit::Hearts => self.h,
            Suit::Spades => self.s,
        }
    }

    /// The four lengths indexed by suit (clubs first).
    pub fn lens(self) -> (r: [u8; 4])
        ensures
            r@ == seq![self@.0 as u8, self@.1 as u8, self@.2 as u8, self@.3 as u8],
            forall|i: int| 0 <= i < 4 ==> r[i] <= 13,
            lens_ok(self@),
    {
        proof {
            use_type_invariant(self);
        }
        let r = [self.c, self.d, self.h, self.s];
        proof {
            assert(r@ =~= seq![self@.0 as u8, self@.1 as u8, self@.2 as u8, self@.3 as u8]);
        }
        r
    }

    /// Sum of the four lengths.
    pub fn total(self) -> (r: u8)
        ensures
            r == total_of(self@),
    {
        proof {
            use_type_invariant(self);
        }
        self.c + self.d + self.h + self.s
    }

    /// The order-free pattern of this shape.
    pub fn class(self) -> (r: ShapeClass)
        ensures
            r@ == sort_desc(self@),
            sorted_desc(r@),
            same_lens(r@, self@),
    {
        proof {
            use_type_invariant(self);
        }
        ShapeClass::new([self.c, self.d, self.h, self.s])
    }

    /// Rank of this 13-card shape in lexicographic `(clubs, diamonds, hearts)` order, `0..560`.
    pub fn index(self) -> (r: u16)
        requires
            total_of(self@) == 13,
        ensures
            r == shape_idx(self@),
            r < 560,
    {
        proof {
            use_type_invariant(self);
        }
        shape_index(self.c, self.d, self.h)
    }

    /// The 13-card shape with the given index.
    pub fn from_index(i: u16) -> (r: Shape)
        requires
            i < 560,
        ensures
            valid13(r@),
            shape_idx(r@) == i,
            r@ == shape_at(i as int),
    {
        let mut c: u8 = 0;
        proof {
            lemma_t3_mono(0, 14);
        }
        while c < 13 && t3_value(c + 1) <= i
            invariant
                c <= 13,
                t3(c as int) <= i,
            decreases 13 - c,
        {
            c = c + 1;
        }
        proof {
            lemma_t3_mono(c + 1, 14);
            lemma_t3_step(c as int);
        }
        let mut d: u8 = 0;
        while d < 13 - c && dpart_value(c, d + 1) <= i - t3_value(c)
            invariant
                c <= 13,
                d <= 13 - c,
                t3(c as int) <= i,
                t3(c as int) + dpart(c as int, d as int) <= i < t3(c + 1),
            decreases 13 - c - d,
        {
            d = d + 1;
        }
        proof {
            lemma_dpart_mono(c as int, d as int, 13 - c);
            if d < 13 - c {
                lemma_dpart_step(c as int, d as int);
            }
        }
        let h = (i - t3_value(c) - dpart_value(c, d)) as u8;
        let r = Shape::new(c, d, h, 13 - c - d - h);
        proof {
            lemma_shape_at(r@);
        }
        r
    }

    /// Length-wise sum (valid while every resulting length is at most 13).
    pub fn add(self, other: Shape) -> (r: Shape)
        requires
            self@.0 + other@.0 <= 13,
            self@.1 + other@.1 <= 13,
            self@.2 + other@.2 <= 13,
            self@.3 + other@.3 <= 13,
        ensures
            r@ == (self@.0 + other@.0, self@.1 + other@.1, self@.2 + other@.2, self@.3 + other@.3),
    {
        Shape::new(self.c + other.c, self.d + other.d, self.h + other.h, self.s + other.s)
    }

    /// Length-wise difference, or `None` if any length of `other` exceeds that of `self`.
    pub fn checked_sub(self, other: Shape) -> (r: Option<Shape>)
        ensures
            r is None <==> (other@.0 > self@.0 || other@.1 > self@.1 || other@.2 > self@.2
                || other@.3 > self@.3),
            r matches Some(x) ==> x@ == (self@.0 - other@.0, self@.1 - other@.1, self@.2
                - other@.2, self@.3 - other@.3),
    {
        proof {
            use_type_invariant(self);
        }
        if other.c > self.c || other.d > self.d || other.h > self.h || other.s > self.s {
            None
        } else {
            Some(Shape::new(self.c - other.c, self.d - other.d, self.h - other.h, self.s - other.s))
        }
    }

    /// The longest suit length.
    pub fn longest(self) -> (r: u8)
        ensures
            r == max4(self@),
    {
        let k = self.class();
        proof {
            assert(count4(k@, k@.0) == count4(self@, k@.0));
            assert(count4(k@, self@.0) == count4(self@, self@.0));
            assert(count4(k@, self@.1) == count4(self@, self@.1));
            assert(count4(k@, self@.2) == count4(self@, self@.2));
            assert(count4(k@, self@.3) == count4(self@, self@.3));
        }
        k.longest()
    }

    /// The shortest suit length.
    pub fn shortest(self) -> (r: u8)
        ensures
            r == min4(self@),
    {
        let k = self.class();
        proof {
            assert(count4(k@, k@.3) == count4(self@, k@.3));
            assert(count4(k@, self@.0) == count4(self@, self@.0));
            assert(count4(k@, self@.1) == count4(self@, self@.1));
            assert(count4(k@, self@.2) == count4(self@, self@.2));
            assert(count4(k@, self@.3) == count4(self@, self@.3));
        }
        k.shortest()
    }

    /// `true` for 4333, 4432 and 5332 patterns.
    pub fn is_balanced(self) -> (r: bool)
        ensures
            r == balanced_class(sort_desc(self@)),
    {
        self.class().is_balanced()
    }
}

fn dpart_value(c: u8, d: u8) -> (r: u16)
    requires
        c <= 13,
        d <= 13 - c,
    ensures
        r == dpart(c as int, d as int),
{
    let c = c as u16;
    let d = d as u16;
    proof {
        lemma_dpart_nonneg(c as int, d as int);
        assert(d * d <= 169) by (nonlinear_arith)
            requires
                d <= 13,
        ;
        assert(d * (14 - c) <= 13 * 14) by (nonlinear_arith)
            requires
                d <= 13,
                c <= 13,
        ;
        assert(d * d >= d) by (nonlinear_arith);
    }
    d * (14 - c) - (d * d - d) / 2
}

/// An order-free hand pattern such as 5-4-3-1, stored with the lengths in descending order.
#[derive(Clone, Copy, PartialEq, Eq, Structural, Hash, PartialOrd, Ord, Debug)]
pub struct ShapeClass {
    a: u8,
    b: u8,
    c: u8,
    d: u8,
}

impl View for ShapeClass {
    type V = Lens;

    /// The lengths in descending order.
    closed spec fn view(&self) -> Lens {
        (self.a as int, self.b as int, self.c as int, self.d as int)
    }
}

impl ShapeClass {
    #[verifier::type_invariant]
    pub(crate) closed spec fn inv(self) -> bool {
        self.a <= 15 && self.a >= self.b && self.b >= self.c && self.c >= self.d
    }

    /// The lengths of a class are sorted, the longest at most 15.
    pub(crate) proof fn lemma_sorted(self)
        requires
            self.inv(),
        ensures
            sorted_desc(self@),
            self@.0 <= 15,
            self@.3 >= 0,
    {
    }

    /// Classes are determined by their lengths.
    pub proof fn lemma_view_eq(a: ShapeClass, b: ShapeClass)
        requires
            a@ == b@,
        ensures
            a == b,
    {
    }

    /// Builds a class from four lengths in any order.
    pub fn new(lens: [u8; 4]) -> (r: ShapeClass)
        requires
            forall|i: int| 0 <= i < 4 ==> lens[i] <= 15,
        ensures
            sorted_desc(r@),
            same_lens(r@, (lens[0] as int, lens[1] as int, lens[2] as int, lens[3] as int)),
            r@ == sort_desc((lens[0] as int, lens[1] as int, lens[2] as int, lens[3] as int)),
    {
        let mut x0 = lens[0];
        let mut x1 = lens[1];
        let mut x2 = lens[2];
        let mut x3 = lens[3];
        if x0 < x1 {
            let t = x0;
            x0 = x1;
            x1 = t;
        }
        if x2 < x3 {
            let t = x2;
            x2 = x3;
            x3 = t;
        }
        if x0 < x2 {
            let t = x0;
            x0 = x2;
            x2 = t;
        }
        if x1 < x3 {
            let t = x1;
            x1 = x3;
            x3 = t;
        }
        if x1 < x2 {
            let t = x1;
            x1 = x2;
            x2 = t;
        }
        let r = ShapeClass { a: x0, b: x1, c: x2, d: x3 };
        proof {
            let t = (lens[0] as int, lens[1] as int, lens[2] as int, lens[3] as int);
            assert(same_lens(r@, t));
            lemma_sort_desc(t, r@);
        }
        r
    }

    /// The class with the given (sorted) lengths.
    pub closed spec fn of_lens_spec(t: Lens) -> ShapeClass {
        ShapeClass { a: t.0 as u8, b: t.1 as u8, c: t.2 as u8, d: t.3 as u8 }
    }

    /// The class table position of this class (meaningful for sorted 13-card patterns).
    pub closed spec fn index_spec(self) -> int {
        choose|i: int| 0 <= i < 39 && class_table(i) == self@
    }

    /// The class with lengths `a >= b >= c >= d`.
    fn lit(a: u8, b: u8, c: u8, d: u8) -> (r: ShapeClass)
        requires
            15 >= a >= b >= c >= d,
        ensures
            r@ == (a as int, b as int, c as int, d as int),
    {
        ShapeClass { a, b, c, d }
    }

    /// 4-3-3-3
    pub fn c4333() -> (r: ShapeClass)
        ensures
            r@ == (4int, 3int, 3int, 3int),
    {
        ShapeClass::lit(4, 3, 3, 3)
    }

    /// 4-4-3-2
    pub fn c4432() -> (r: ShapeClass)
        ensures
            r@ == (4int, 4int, 3int, 2int),
    {
        ShapeClass::lit(4, 4, 3, 2)
    }

    /// 5-3-3-2
    pub fn c5332() -> (r: ShapeClass)
        ensures
            r@ == (5int, 3int, 3int, 2int),
    {
        ShapeClass::lit(5, 3, 3, 2)
    }

    /// 5-4-2-2
    pub fn c5422() -> (r: ShapeClass)
        ensures
            r@ == (5int, 4int, 2int, 2int),
    {
        ShapeClass::lit(5, 4, 2, 2)
    }

    /// 6-3-2-2
    pub fn c6322() -> (r: ShapeClass)
        ensures
            r@ == (6int, 3int, 2int, 2int),
    {
        ShapeClass::lit(6, 3, 2, 2)
    }

    /// 4-4-4-1
    pub fn c4441() -> (r: ShapeClass)
        ensures
            r@ == (4int, 4int, 4int, 1int),
    {
        ShapeClass::lit(4, 4, 4, 1)
    }

    /// 5-4-3-1
    pub fn c5431() -> (r: ShapeClass)
        ensures
            r@ == (5int, 4int, 3int, 1int),
    {
        ShapeClass::lit(5, 4, 3, 1)
    }

    /// 5-5-2-1
    pub fn c5521() -> (r: ShapeClass)
        ensures
            r@ == (5int, 5int, 2int, 1int),
    {
        ShapeClass::lit(5, 5, 2, 1)
    }

    /// 6-3-3-1
    pub fn c6331() -> (r: ShapeClass)
        ensures
            r@ == (6int, 3int, 3int, 1int),
    {
        ShapeClass::lit(6, 3, 3, 1)
    }

    /// 7-2-2-2
    pub fn c7222() -> (r: ShapeClass)
        ensures
            r@ == (7int, 2int, 2int, 2int),
    {
        ShapeClass::lit(7, 2, 2, 2)
    }

    /// The lengths packed as nibbles, descending (longest suit in the high nibble).
    pub fn bits(self) -> (r: u16)
        ensures
            r == 4096 * self@.0 + 256 * self@.1 + 16 * self@.2 + self@.3,
    {
        proof {
            use_type_invariant(self);
        }
        4096 * self.a as u16 + 256 * self.b as u16 + 16 * self.c as u16 + self.d as u16
    }

    /// The four lengths in descending order.
    pub fn lens(self) -> (r: [u8; 4])
        ensures
            r@ == seq![self@.0 as u8, self@.1 as u8, self@.2 as u8, self@.3 as u8],
            r[0] == self@.0 && r[1] == self@.1 && r[2] == self@.2 && r[3] == self@.3,
    {
        let r = [self.a, self.b, self.c, self.d];
        proof {
            assert(r@ =~= seq![self@.0 as u8, self@.1 as u8, self@.2 as u8, self@.3 as u8]);
        }
        r
    }

    /// Sum of the four lengths.
    pub fn total(self) -> (r: u8)
        ensures
            r == total_of(self@),
    {
        proof {
            use_type_invariant(self);
        }
        self.a + self.b + self.c + self.d
    }

    /// Position of this 13-card class in the class table, `0..39`.
    pub fn index(self) -> (r: u8)
        requires
            total_of(self@) == 13,
        ensures
            r < 39,
            class_table(r as int) == self@,
    {
        proof {
            use_type_invariant(self);
        }
        match (self.a, self.b, self.c, self.d) {
            (13, 0, 0, 0) => 0,
            (12, 1, 0, 0) => 1,
            (11, 2, 0, 0) => 2,
            (10, 3, 0, 0) => 3,
            (9, 4, 0, 0) => 4,
            (8, 5, 0, 0) => 5,
            (7, 6, 0, 0) => 6,
            (11, 1, 1, 0) => 7,
            (10, 2, 1, 0) => 8,
            (9, 3, 1, 0) => 9,
            (8, 4, 1, 0) => 10,
            (7, 5, 1, 0) => 11,
            (6, 6, 1, 0) => 12,
            (9, 2, 2, 0) => 13,
            (8, 3, 2, 0) => 14,
            (7, 4, 2, 0) => 15,
            (6, 5, 2, 0) => 16,
            (7, 3, 3, 0) => 17,
            (6, 4, 3, 0) => 18,
            (5, 5, 3, 0) => 19,
            (5, 4, 4, 0) => 20,
            (10, 1, 1, 1) => 21,
            (9, 2, 1, 1) => 22,
            (8, 3, 1, 1) => 23,
            (7, 4, 1, 1) => 24,
            (6, 5, 1, 1) => 25,
            (8, 2, 2, 1) => 26,
            (7, 3, 2, 1) => 27,
            (6, 4, 2, 1) => 28,
            (5, 5, 2, 1) => 29,
            (6, 3, 3, 1) => 30,
            (5, 4, 3, 1) => 31,
            (4, 4, 4, 1) => 32,
            (7, 2, 2, 2) => 33,
            (6, 3, 2, 2) => 34,
            (5, 4, 2, 2) => 35,
            (5, 3, 3, 2) => 36,
            (4, 4, 3, 2) => 37,
            _ => 38,
        }
    }

    /// The class with the given index in the class table.
    pub fn from_index(i: u8) -> (r: ShapeClass)
        requires
            i < 39,
        ensures
            r@ == class_table(i as int),
    {
        match i {
            0 => ShapeClass { a: 13, b: 0, c: 0, d: 0 },
            1 => ShapeClass { a: 12, b: 1, c: 0, d: 0 },
            2 => ShapeClass { a: 11, b: 2, c: 0, d: 0 },
            3 => ShapeClass { a: 10, b: 3, c: 0, d: 0 },
            4 => ShapeClass { a: 9, b: 4, c: 0, d: 0 },
            5 => ShapeClass { a: 8, b: 5, c: 0, d: 0 },
            6 => ShapeClass { a: 7, b: 6, c: 0, d: 0 },
            7 => ShapeClass { a: 11, b: 1, c: 1, d: 0 },
            8 => ShapeClass { a: 10, b: 2, c: 1, d: 0 },
            9 => ShapeClass { a: 9, b: 3, c: 1, d: 0 },
            10 => ShapeClass { a: 8, b: 4, c: 1, d: 0 },
            11 => ShapeClass { a: 7, b: 5, c: 1, d: 0 },
            12 => ShapeClass { a: 6, b: 6, c: 1, d: 0 },
            13 => ShapeClass { a: 9, b: 2, c: 2, d: 0 },
            14 => ShapeClass { a: 8, b: 3, c: 2, d: 0 },
            15 => ShapeClass { a: 7, b: 4, c: 2, d: 0 },
            16 => ShapeClass { a: 6, b: 5, c: 2, d: 0 },
            17 => ShapeClass { a: 7, b: 3, c: 3, d: 0 },
            18 => ShapeClass { a: 6, b: 4, c: 3, d: 0 },
            19 => ShapeClass { a: 5, b: 5, c: 3, d: 0 },
            20 => ShapeClass { a: 5, b: 4, c: 4, d: 0 },
            21 => ShapeClass { a: 10, b: 1, c: 1, d: 1 },
            22 => ShapeClass { a: 9, b: 2, c: 1, d: 1 },
            23 => ShapeClass { a: 8, b: 3, c: 1, d: 1 },
            24 => ShapeClass { a: 7, b: 4, c: 1, d: 1 },
            25 => ShapeClass { a: 6, b: 5, c: 1, d: 1 },
            26 => ShapeClass { a: 8, b: 2, c: 2, d: 1 },
            27 => ShapeClass { a: 7, b: 3, c: 2, d: 1 },
            28 => ShapeClass { a: 6, b: 4, c: 2, d: 1 },
            29 => ShapeClass { a: 5, b: 5, c: 2, d: 1 },
            30 => ShapeClass { a: 6, b: 3, c: 3, d: 1 },
            31 => ShapeClass { a: 5, b: 4, c: 3, d: 1 },
            32 => ShapeClass { a: 4, b: 4, c: 4, d: 1 },
            33 => ShapeClass { a: 7, b: 2, c: 2, d: 2 },
            34 => ShapeClass { a: 6, b: 3, c: 2, d: 2 },
            35 => ShapeClass { a: 5, b: 4, c: 2, d: 2 },
            36 => ShapeClass { a: 5, b: 3, c: 3, d: 2 },
            37 => ShapeClass { a: 4, b: 4, c: 3, d: 2 },
            _ => ShapeClass { a: 4, b: 3, c: 3, d: 3 },
        }
    }

    /// The longest suit length.
    pub fn longest(self) -> (r: u8)
        ensures
            r == self@.0,
    {
        self.a
    }

    /// The shortest suit length.
    pub fn shortest(self) -> (r: u8)
        ensures
            r == self@.3,
    {
        self.d
    }

    /// 4-3-3-3, 4-4-3-2 or 5-3-3-2.
    pub fn is_balanced(self) -> (r: bool)
        ensures
            r == balanced_class(self@),
    {
        (self.a == 4 && self.b == 3 && self.c == 3 && self.d == 3) || (self.a == 4 && self.b == 4
            && self.c == 3 && self.d == 2) || (self.a == 5 && self.b == 3 && self.c == 3 && self.d
            == 2)
    }

    /// Balanced, or 5-4-2-2 or 6-3-2-2.
    pub fn is_semi_balanced(self) -> (r: bool)
        ensures
            r == semi_balanced_class(self@),
    {
        self.is_balanced() || (self.a == 5 && self.b == 4 && self.c == 2 && self.d == 2) || (
        self.a == 6 && self.b == 3 && self.c == 2 && self.d == 2)
    }
}

/// Distinct entries of the class table are distinct classes.
pub proof fn lemma_class_table_injective(i: int, j: int)
    requires
        0 <= i < 39,
        0 <= j < 39,
        class_table(i) == class_table(j),
    ensures
        i == j,
{
}

/// Every class table entry is a sorted 13-card pattern.
pub proof fn lemma_class_table_valid(i: int)
    requires
        0 <= i < 39,
    ensures
        sorted_desc(class_table(i)),
        valid13(class_table(i)),
{
}

/// The class table position of a sorted 13-card pattern.
pub open spec fn class_pos(t: Lens) -> int {
    if t == (13int, 0int, 0int, 0int) {
        0
    } else if t == (12int, 1int, 0int, 0int) {
        1
    } else if t == (11int, 2int, 0int, 0int) {
        2
    } else if t == (10int, 3int, 0int, 0int) {
        3
    } else if t == (9int, 4int, 0int, 0int) {
        4
    } else if t == (8int, 5int, 0int, 0int) {
        5
    } else if t == (7int, 6int, 0int, 0int) {
        6
    } else if t == (11int, 1int, 1int, 0int) {
        7
    } else if t == (10int, 2int, 1int, 0int) {
        8
    } else if t == (9int, 3int, 1int, 0int) {
        9
    } else if t == (8int, 4int, 1int, 0int) {
        10
    } else if t == (7int, 5int, 1int, 0int) {
        11
    } else if t == (6int, 6int, 1int, 0int) {
        12
    } else if t == (9int, 2int, 2int, 0int) {
        13
    } else if t == (8int, 3int, 2int, 0int) {
        14
    } else if t == (7int, 4int, 2int, 0int) {
        15
    } else if t == (6int, 5int, 2int, 0int) {
        16
    } else if t == (7int, 3int, 3int, 0int) {
        17
    } else if t == (6int, 4int, 3int, 0int) {
        18
    } else if t == (5int, 5int, 3int, 0int) {
        19
    } else if t == (5int, 4int, 4int, 0int) {
        20
    } else if t == (10int, 1int, 1int, 1int) {
        21
    } else if t == (9int, 2int, 1int, 1int) {
        22
    } else if t == (8int, 3int, 1int, 1int) {
        23
    } else if t == (7int, 4int, 1int, 1int) {
        24
    } else if t == (6int, 5int, 1int, 1int) {
        25
    } else if t == (8int, 2int, 2int, 1int) {
        26
    } else if t == (7int, 3int, 2int, 1int) {
        27
    } else if t == (6int, 4int, 2int, 1int) {
        28
    } else if t == (5int, 5int, 2int, 1int) {
        29
    } else if t == (6int, 3int, 3int, 1int) {
        30
    } else if t == (5int, 4int, 3int, 1int) {
        31
    } else if t == (4int, 4int, 4int, 1int) {
        32
    } else if t == (7int, 2int, 2int, 2int) {
        33
    } else if t == (6int, 3int, 2int, 2int) {
        34
    } else if t == (5int, 4int, 2int, 2int) {
        35
    } else if t == (5int, 3int, 3int, 2int) {
        36
    } else if t == (4int, 4int, 3int, 2int) {
        37
    } else {
        38
    }
}

/// Every sorted 13-card pattern is in the class table.
pub proof fn lemma_class_table_complete(t: Lens)
    requires
        sorted_desc(t),
        valid13(t),
    ensures
        exists|i: int| 0 <= i < 39 && class_table(i) == t,
{
    let i = class_pos(t);
    assert(0 <= i < 39 && class_table(i) == t);
}

/// The lengths in reverse order.
pub open spec fn rev4(t: Lens) -> Lens {
    (t.3, t.2, t.1, t.0)
}

/// The index of the first shape of class `k` among the shapes: that of its lengths in
/// ascending order.
pub open spec fn first_of_class(k: int) -> int {
    shape_idx(rev4(class_table(k)))
}

/// Among the rearrangements of sorted lengths, the ascending one comes first.
proof fn lemma_ascending_first(t: Lens, p: Lens)
    requires
        sorted_desc(p),
        same_lens(t, p),
    ensures
        !lex_less(t, rev4(p)),
        (t.0 == p.3 && t.1 == p.2 && t.2 == p.1) ==> t == rev4(p),
{
    assert(count4(t, t.0) == count4(p, t.0));
    assert(count4(t, p.0) == count4(p, p.0));
    assert(count4(t, t.1) == count4(p, t.1));
    assert(count4(t, p.1) == count4(p, p.1));
    assert(count4(t, t.2) == count4(p, t.2));
    assert(count4(t, p.2) == count4(p, p.2));
    assert(count4(t, t.3) == count4(p, t.3));
    assert(count4(t, p.3) == count4(p, p.3));
}

/// The first shape of class `k` is a shape of that class, and no shape of the class comes
/// before it.
pub proof fn lemma_first_of_class(k: int, t: Lens)
    requires
        0 <= k < 39,
    ensures
        valid13(rev4(class_table(k))),
        same_lens(rev4(class_table(k)), class_table(k)),
        valid13(t) && same_lens(t, class_table(k)) ==> first_of_class(k) <= shape_idx(t),
{
    let p = class_table(k);
    lemma_class_table_valid(k);
    assert forall|v: int| #[trigger] count4(rev4(p), v) == count4(p, v) by {}
    if valid13(t) && same_lens(t, p) {
        lemma_ascending_first(t, p);
        if t != rev4(p) {
            lemma_shape_order(rev4(p), t);
        }
    }
}

/// The classes come in the order of their first appearance among the shapes: the first shape
/// of an earlier class comes before the first shape of a later one.
pub proof fn lemma_classes_in_first_appearance_order(k1: int, k2: int)
    requires
        0 <= k1 < k2 < 39,
    ensures
        first_of_class(k1) < first_of_class(k2),
    decreases k2 - k1,
{
    let a = rev4(class_table(k2 - 1));
    let b = rev4(class_table(k2));
    lemma_class_table_valid(k2 - 1);
    lemma_class_table_valid(k2);
    assert(lex_less(a, b));
    lemma_shape_order(a, b);
    if k1 < k2 - 1 {
        lemma_classes_in_first_appearance_order(k1, k2 - 1);
    }
}

/// Every 13-card shape.
pub fn shapes() -> (r: Vec<Shape>)
    ensures
        r.len() == 560,
        forall|i: int| 0 <= i < 560 ==> #[trigger] r[i]@ == shape_at(i),
{
    let mut r: Vec<Shape> = Vec::new();
    let mut i: u16 = 0;
    while i < 560
        invariant
            i <= 560,
            r.len() == i,
            forall|j: int| 0 <= j < i ==> #[trigger] r[j]@ == shape_at(j),
        decreases 560 - i,
    {
        r.push(Shape::from_index(i));
        i = i + 1;
    }
    r
}

/// The 39 order-free 13-card patterns, in order of first appearance among the shapes.
pub fn classes() -> (r: Vec<ShapeClass>)
    ensures
        r.len() == 39,
        forall|i: int| 0 <= i < 39 ==> #[trigger] r[i]@ == class_table(i),
{
    let mut r: Vec<ShapeClass> = Vec::new();
    let mut i: u8 = 0;
    while i < 39
        invariant
            i <= 39,
            r.len() == i,
            forall|j: int| 0 <= j < i ==> #[trigger] r[j]@ == class_table(j),
        decreases 39 - i,
    {
        r.push(ShapeClass::from_index(i));
        i = i + 1;
    }
    r
}

/// The index into the class table of the class of the shape with index `i`.
pub fn class_of(i: u16) -> (r: u8)
    requires
        i < 560,
    ensures
        r < 39,
        class_table(r as int) == sort_desc(shape_at(i as int)),
{
    let s = Shape::from_index(i);
    let k = s.class();
    proof {
        lemma_same_lens_total(k@, s@);
    }
    k.index()
}

} // verus!
