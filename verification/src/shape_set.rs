//! Sets of ordered 13-card shapes.

use vstd::prelude::*;
use crate::bits::{
    bit64, count_ones64, lemma_all_ones, lemma_and, lemma_and_not, lemma_high_and_left,
    lemma_high_ops, lemma_high_zero, lemma_low_mask, lemma_one, lemma_or, lemma_set_zero,
    lemma_zero, popcount, bitset64,
};
use crate::holding::{asc_below, int_range};
use crate::range::is_range;
use core::ops::RangeInclusive;
use crate::card::Suit;
use crate::shape::{
    Lens, Shape, ShapeClass, balanced_class, class_of, class_table, len_of, lemma_class_table_injective,
    lemma_shape_at, lemma_shape_at_index, lemma_same_lens_total, semi_balanced_class, shape_at,
    shape_idx, sort_desc, total_of, valid13,
};

verus! {

/// Whether bit `i` of the 576-bit word array `w` is set.
pub open spec fn member(w: [u64; 9], i: int) -> bool {
    0 <= i < 576 && bit64(w[i / 64], i % 64)
}

/// The set bits of a word array.
pub open spec fn words_set(w: [u64; 9]) -> Set<int> {
    Set::new(|i: int| member(w, i))
}

/// Number of set bits below `n` of a word array.
pub open spec fn flat_count(w: [u64; 9], n: nat) -> nat
    decreases n,
{
    if n == 0 {
        0
    } else {
        flat_count(w, (n - 1) as nat) + if member(w, n - 1) {
            1nat
        } else {
            0nat
        }
    }
}

/// Every shape index `0..560`.
pub open spec fn all_shapes() -> Set<int> {
    int_range(0, 560)
}

proof fn lemma_div64(k: int, j: int)
    requires
        0 <= k,
        0 <= j < 64,
    ensures
        (64 * k + j) / 64 == k,
        (64 * k + j) % 64 == j,
{
    vstd::arithmetic::div_mod::lemma_fundamental_div_mod_converse(64 * k + j, 64, k, j);
}

proof fn lemma_split64(i: int)
    requires
        0 <= i,
    ensures
        i == 64 * (i / 64) + i % 64,
        0 <= i % 64 < 64,
        0 <= i / 64,
        i < 576 ==> i / 64 < 9,
        i < 560 && i / 64 == 8 ==> i % 64 < 48,
{
    vstd::arithmetic::div_mod::lemma_fundamental_div_mod(i, 64);
}

/// Some bit of a nonzero word is set.
proof fn lemma_some_bit(x: u64) -> (j: int)
    requires
        x != 0,
    ensures
        0 <= j < 64,
        bit64(x, j),
{
    lemma_set_zero(x);
    if !(exists|j: int| bitset64(x).contains(j)) {
        assert(bitset64(x) =~= Set::<int>::empty());
    }
    let j = choose|j: int| bitset64(x).contains(j);
    j
}

proof fn lemma_words_or(a: [u64; 9], b: [u64; 9], r: [u64; 9])
    requires
        forall|k: int| 0 <= k < 9 ==> r[k] == a[k] | b[k],
    ensures
        words_set(r) == words_set(a).union(words_set(b)),
{
    assert forall|i: int| #[trigger] words_set(r).contains(i) == words_set(a).union(
        words_set(b),
    ).contains(i) by {
        if 0 <= i < 576 {
            lemma_or(a[i / 64], b[i / 64], (i % 64) as u64);
        }
    }
    assert(words_set(r) =~= words_set(a).union(words_set(b)));
}

proof fn lemma_words_and(a: [u64; 9], b: [u64; 9], r: [u64; 9])
    requires
        forall|k: int| 0 <= k < 9 ==> r[k] == a[k] & b[k],
    ensures
        words_set(r) == words_set(a).intersect(words_set(b)),
{
    assert forall|i: int| #[trigger] words_set(r).contains(i) == words_set(a).intersect(
        words_set(b),
    ).contains(i) by {
        if 0 <= i < 576 {
            lemma_and(a[i / 64], b[i / 64], (i % 64) as u64);
        }
    }
    assert(words_set(r) =~= words_set(a).intersect(words_set(b)));
}

proof fn lemma_words_and_not(a: [u64; 9], b: [u64; 9], r: [u64; 9])
    requires
        forall|k: int| 0 <= k < 9 ==> r[k] == a[k] & !b[k],
    ensures
        words_set(r) == words_set(a).difference(words_set(b)),
{
    assert forall|i: int| #[trigger] words_set(r).contains(i) == words_set(a).difference(
        words_set(b),
    ).contains(i) by {
        if 0 <= i < 576 {
            lemma_and_not(a[i / 64], b[i / 64], (i % 64) as u64);
        }
    }
    assert(words_set(r) =~= words_set(a).difference(words_set(b)));
}

/// The words of the set of all 560 shapes.
pub open spec fn all_word(k: int) -> u64 {
    if k < 8 {
        0xFFFF_FFFF_FFFF_FFFFu64
    } else {
        0xFFFF_FFFF_FFFFu64
    }
}

proof fn lemma_all_words(w: [u64; 9])
    requires
        forall|k: int| 0 <= k < 9 ==> w[k] == all_word(k),
    ensures
        words_set(w) == all_shapes(),
{
    assert forall|i: int| #[trigger] words_set(w).contains(i) == all_shapes().contains(i) by {
        if 0 <= i < 576 {
            lemma_split64(i);
            let k = i / 64;
            let j = i % 64;
            assert(w[k] == all_word(k));
            if k < 8 {
                lemma_all_ones(j as u64);
                assert(bit64(w[k], j));
                assert(member(w, i));
                assert(i < 560);
            } else {
                lemma_low_mask(48, j as u64);
                assert(((1u64 << 48u64) - 1u64) as u64 == 0xFFFF_FFFF_FFFFu64) by (bit_vector);
                assert(bit64(w[k], j) == (j < 48));
                assert(member(w, i) == (i < 560));
            }
        }
    }
    assert(words_set(w) =~= all_shapes());
}

proof fn lemma_top_word(w: [u64; 9])
    requires
        w[8] >> 48 == 0,
    ensures
        words_set(w).subset_of(all_shapes()),
{
    assert forall|i: int| #[trigger] words_set(w).contains(i) implies all_shapes().contains(i) by {
        if 560 <= i < 576 {
            lemma_high_zero(w[8], 48, (i % 64) as u64);
        }
    }
}

/// A set of ordered 13-card shapes: bit `i` is set when the shape with index `i` is a member.
///
/// Bits `560..576` are always zero.
#[derive(Clone, Copy, PartialEq, Eq, Hash, Debug)]
pub struct ShapeSet {
    w: [u64; 9],
}

impl View for ShapeSet {
    type V = Set<int>;

    /// The indices of the member shapes.
    closed spec fn view(&self) -> Set<int> {
        words_set(self.w)
    }
}

impl ShapeSet {
    #[verifier::type_invariant]
    pub(crate) closed spec fn inv(self) -> bool {
        self.w[8] >> 48 == 0
    }

    /// The raw words.
    pub closed spec fn words_view(self) -> [u64; 9] {
        self.w
    }

    /// Every member is a shape index.
    pub(crate) proof fn lemma_inv(self)
        requires
            self.inv(),
        ensures
            self@.subset_of(all_shapes()),
    {
        lemma_top_word(self.w);
    }

    /// Shape sets are determined by their members.
    pub proof fn lemma_view_eq(a: ShapeSet, b: ShapeSet)
        requires
            a@ == b@,
        ensures
            a == b,
    {
        assert forall|k: int| 0 <= k < 9 implies a.w[k] == b.w[k] by {
            assert forall|j: int| 0 <= j < 64 implies #[trigger] bit64(a.w[k], j) == bit64(b.w[k], j) by {
                lemma_div64(k, j);
                assert(words_set(a.w).contains(64 * k + j) == member(a.w, 64 * k + j));
                assert(words_set(b.w).contains(64 * k + j) == member(b.w, 64 * k + j));
                assert(a@.contains(64 * k + j) == b@.contains(64 * k + j));
            }
            crate::bits::lemma_ext(a.w[k], b.w[k]);
        }
        assert(a.w =~= b.w);
    }

    /// No shapes.
    pub fn empty() -> (r: ShapeSet)
        ensures
            r@ == Set::<int>::empty(),
    {
        let w = [0u64; 9];
        proof {
            assert forall|i: int| !(#[trigger] words_set(w).contains(i)) by {
                if 0 <= i < 576 {
                    lemma_zero((i % 64) as u64);
                }
            }
            assert(words_set(w) =~= Set::<int>::empty());
            assert(0u64 >> 48u64 == 0) by (bit_vector);
        }
        ShapeSet { w }
    }

    /// Every 13-card shape.
    pub fn all() -> (r: ShapeSet)
        ensures
            r@ == all_shapes(),
    {
        let m = 0xFFFF_FFFF_FFFF_FFFFu64;
        let w = [m, m, m, m, m, m, m, m, 0xFFFF_FFFF_FFFFu64];
        proof {
            lemma_all_words(w);
            assert(0xFFFF_FFFF_FFFFu64 >> 48u64 == 0) by (bit_vector);
        }
        ShapeSet { w }
    }

    /// Builds a set from its words, or `None` if any bit at or above 560 is set.
    pub fn from_words(words: [u64; 9]) -> (r: Option<ShapeSet>)
        ensures
            r is Some <==> words[8] >> 48 == 0,
            r matches Some(s) ==> s@ == words_set(words) && s.words_view() == words,
    {
        if words[8] >> 48 != 0 {
            None
        } else {
            Some(ShapeSet { w: words })
        }
    }

    /// The raw words.
    pub fn words(self) -> (r: [u64; 9])
        ensures
            r == self.words_view(),
            words_set(r) == self@,
    {
        self.w
    }

    /// Whether `shape` (which must total 13 cards) is a member.
    pub fn contains(self, shape: Shape) -> (r: bool)
        requires
            valid13(shape@),
        ensures
            r == self@.contains(shape_idx(shape@)),
    {
        let i = shape.index() as usize;
        (self.w[i / 64] >> ((i % 64) as u64)) & 1 == 1
    }

    /// Whether the shape with index `i` is a member.
    pub fn contains_index(self, i: u16) -> (r: bool)
        requires
            i < 560,
        ensures
            r == self@.contains(i as int),
    {
        let i = i as usize;
        (self.w[i / 64] >> ((i % 64) as u64)) & 1 == 1
    }

    /// This set with bit `i` set.
    fn with_index(self, i: u16) -> (r: ShapeSet)
        requires
            i < 560,
        ensures
            r@ == self@.insert(i as int),
    {
        proof {
            use_type_invariant(self);
        }
        let k = (i / 64) as usize;
        let b = 1u64 << ((i % 64) as u64);
        proof {
            lemma_split64(i as int);
        }
        let mut w = self.w;
        let nw = w[k] | b;
        w[k] = nw;
        proof {
            assert forall|j: int| #[trigger] words_set(w).contains(j) == self@.insert(
                i as int,
            ).contains(j) by {
                if 0 <= j < 576 {
                    if j / 64 == k {
                        lemma_or(self.w[k as int], b, (j % 64) as u64);
                        lemma_one((i % 64) as u64, (j % 64) as u64);
                    }
                }
            }
            assert(words_set(w) =~= self@.insert(i as int));
            if k == 8 {
                crate::bits::lemma_high_one((i % 64) as u64, 48);
                lemma_high_ops(self.w[8], b, 48);
            }
        }
        ShapeSet { w }
    }

    /// This set with bit `i` cleared.
    fn without_index(self, i: u16) -> (r: ShapeSet)
        requires
            i < 560,
        ensures
            r@ == self@.remove(i as int),
    {
        proof {
            use_type_invariant(self);
        }
        let k = (i / 64) as usize;
        let b = 1u64 << ((i % 64) as u64);
        let mut w = self.w;
        let nw = w[k] & !b;
        w[k] = nw;
        proof {
            assert forall|j: int| #[trigger] words_set(w).contains(j) == self@.remove(
                i as int,
            ).contains(j) by {
                if 0 <= j < 576 {
                    if j / 64 == k {
                        lemma_and_not(self.w[k as int], b, (j % 64) as u64);
                        lemma_one((i % 64) as u64, (j % 64) as u64);
                    }
                }
            }
            assert(words_set(w) =~= self@.remove(i as int));
            if k == 8 {
                lemma_high_and_left(self.w[8], b, 48);
            }
        }
        ShapeSet { w }
    }

    /// This set plus `shape`.
    pub fn insert(self, shape: Shape) -> (r: ShapeSet)
        requires
            valid13(shape@),
        ensures
            r@ == self@.insert(shape_idx(shape@)),
    {
        self.with_index(shape.index())
    }

    /// This set minus `shape`.
    pub fn remove(self, shape: Shape) -> (r: ShapeSet)
        requires
            valid13(shape@),
        ensures
            r@ == self@.remove(shape_idx(shape@)),
    {
        self.without_index(shape.index())
    }

    /// Set union.
    pub fn union(self, other: ShapeSet) -> (r: ShapeSet)
        ensures
            r@ == self@.union(other@),
    {
        proof {
            use_type_invariant(self);
            use_type_invariant(other);
        }
        let mut w = self.w;
        let mut k: usize = 0;
        while k < 9
            invariant
                k <= 9,
                forall|j: int| 0 <= j < k ==> w[j] == self.w[j] | other.w[j],
                forall|j: int| k <= j < 9 ==> w[j] == self.w[j],
            decreases 9 - k,
        {
            let v = w[k] | other.w[k];
            w[k] = v;
            k = k + 1;
        }
        proof {
            lemma_words_or(self.w, other.w, w);
            lemma_high_ops(self.w[8], other.w[8], 48);
        }
        ShapeSet { w }
    }

    /// Set intersection.
    pub fn intersect(self, other: ShapeSet) -> (r: ShapeSet)
        ensures
            r@ == self@.intersect(other@),
    {
        proof {
            use_type_invariant(self);
        }
        let mut w = self.w;
        let mut k: usize = 0;
        while k < 9
            invariant
                k <= 9,
                forall|j: int| 0 <= j < k ==> w[j] == self.w[j] & other.w[j],
                forall|j: int| k <= j < 9 ==> w[j] == self.w[j],
            decreases 9 - k,
        {
            let v = w[k] & other.w[k];
            w[k] = v;
            k = k + 1;
        }
        proof {
            lemma_words_and(self.w, other.w, w);
            lemma_high_and_left(self.w[8], other.w[8], 48);
        }
        ShapeSet { w }
    }

    /// Set difference `self \ other`.
    pub fn difference(self, other: ShapeSet) -> (r: ShapeSet)
        ensures
            r@ == self@.difference(other@),
    {
        proof {
            use_type_invariant(self);
        }
        let mut w = self.w;
        let mut k: usize = 0;
        while k < 9
            invariant
                k <= 9,
                forall|j: int| 0 <= j < k ==> w[j] == self.w[j] & !other.w[j],
                forall|j: int| k <= j < 9 ==> w[j] == self.w[j],
            decreases 9 - k,
        {
            let v = w[k] & !other.w[k];
            w[k] = v;
            k = k + 1;
        }
        proof {
            lemma_words_and_not(self.w, other.w, w);
            lemma_high_and_left(self.w[8], other.w[8], 48);
        }
        ShapeSet { w }
    }

    /// Complement within the set of all 560 shapes.
    pub fn complement(self) -> (r: ShapeSet)
        ensures
            r@ == all_shapes().difference(self@),
    {
        ShapeSet::all().difference(self)
    }

    /// `true` when no shape is a member.
    pub fn is_empty(self) -> (r: bool)
        ensures
            r == (self@ == Set::<int>::empty()),
    {
        let mut k: usize = 0;
        while k < 9
            invariant
                k <= 9,
                forall|j: int| 0 <= j < k ==> self.w[j] == 0,
            decreases 9 - k,
        {
            if self.w[k] != 0 {
                proof {
                    let j = lemma_some_bit(self.w[k as int]);
                    lemma_div64(k as int, j);
                    assert(self@.contains(64 * k + j));
                }
                return false;
            }
            k = k + 1;
        }
        proof {
            assert forall|i: int| !(#[trigger] self@.contains(i)) by {
                if 0 <= i < 576 {
                    lemma_zero((i % 64) as u64);
                }
            }
            assert(self@ =~= Set::<int>::empty());
        }
        true
    }

    /// Number of member shapes.
    pub fn len(self) -> (r: u16)
        ensures
            r == self@.len(),
            self@.finite(),
    {
        proof {
            use_type_invariant(self);
            self.lemma_inv();
        }
        let mut n: u32 = 0;
        let mut k: usize = 0;
        while k < 9
            invariant
                k <= 9,
                n == flat_count(self.w, (64 * k) as nat),
                n <= 64 * k,
            decreases 9 - k,
        {
            let c = count_ones64(self.w[k]);
            proof {
                lemma_flat_word(self.w, k as int, 64);
                crate::bits::lemma_popcount_le(self.w[k as int], 64);
            }
            n = n + c;
            k = k + 1;
        }
        proof {
            lemma_flat_len(self.w, 576);
            assert(words_set(self.w) =~= Set::new(|i: int| i < 576 && member(self.w, i)));
        }
        n as u16
    }

    /// Every shape satisfying `p`.
    fn build(p: ShapePred) -> (r: ShapeSet)
        ensures
            r@ == Set::new(|j: int| 0 <= j < 560 && p.holds(shape_at(j))),
    {
        let mut r = ShapeSet::empty();
        let mut j: u16 = 0;
        while j < 560
            invariant
                j <= 560,
                r@ == Set::new(|i: int| 0 <= i < j && p.holds(shape_at(i))),
            decreases 560 - j,
        {
            let s = Shape::from_index(j);
            if p.test(s) {
                r = r.with_index(j);
            }
            proof {
                assert(r@ =~= Set::new(|i: int| 0 <= i < j + 1 && p.holds(shape_at(i))));
            }
            j = j + 1;
        }
        r
    }

    /// Every suit ordering of `class` (a 13-card class).
    pub fn from_class(class: ShapeClass) -> (r: ShapeSet)
        requires
            total_of(class@) == 13,
        ensures
            r@ == Set::new(|j: int| 0 <= j < 560 && sort_desc(shape_at(j)) == class@),
            r@.contains(shape_idx(class@)),
    {
        let r = ShapeSet::build(ShapePred::Class(class));
        proof {
            use_type_invariant(class);
            class.lemma_sorted();
            let t = class@;
            assert(valid13(t));
            assert(crate::shape::same_lens(t, t));
            crate::shape::lemma_sort_desc(t, t);
            crate::shape::lemma_shape_at(t);
            assert(r@ =~= Set::new(|j: int| 0 <= j < 560 && sort_desc(shape_at(j)) == class@));
        }
        r
    }

    /// Union of [`ShapeSet::from_class`] over `classes`.
    pub fn from_classes(classes: &[ShapeClass]) -> (r: ShapeSet)
        requires
            forall|i: int| 0 <= i < classes.len() ==> total_of(#[trigger] classes[i]@) == 13,
        ensures
            r@ == Set::new(
                |j: int|
                    0 <= j < 560 && exists|i: int|
                        0 <= i < classes.len() && sort_desc(shape_at(j)) == #[trigger] classes[i]@,
            ),
    {
        let mut r = ShapeSet::empty();
        let mut k: usize = 0;
        while k < classes.len()
            invariant
                k <= classes.len(),
                forall|i: int| 0 <= i < classes.len() ==> total_of(#[trigger] classes[i]@) == 13,
                r@ == Set::new(
                    |j: int|
                        0 <= j < 560 && exists|i: int|
                            0 <= i < k && sort_desc(shape_at(j)) == #[trigger] classes[i]@,
                ),
            decreases classes.len() - k,
        {
            let one = ShapeSet::from_class(classes[k]);
            r = r.union(one);
            proof {
                let s_next = Set::new(
                    |j: int|
                        0 <= j < 560 && exists|i: int|
                            0 <= i < k + 1 && sort_desc(shape_at(j)) == #[trigger] classes[i]@,
                );
                assert forall|j: int| #[trigger] r@.contains(j) == s_next.contains(j) by {
                    if s_next.contains(j) {
                        let i = choose|i: int|
                            0 <= i < k + 1 && sort_desc(shape_at(j)) == #[trigger] classes[i]@;
                        if i < k {
                        } else {
                            assert(one@.contains(j));
                        }
                    }
                }
                assert(r@ =~= s_next);
            }
            k = k + 1;
        }
        r
    }

    /// 4-3-3-3, 4-4-3-2 and 5-3-3-2 in every suit order (28 shapes).
    pub fn balanced() -> (r: ShapeSet)
        ensures
            r@ == Set::new(|j: int| 0 <= j < 560 && balanced_class(sort_desc(shape_at(j)))),
    {
        let a = ShapeSet::from_class(ShapeClass::c4333());
        let b = ShapeSet::from_class(ShapeClass::c4432());
        let c = ShapeSet::from_class(ShapeClass::c5332());
        let r = a.union(b).union(c);
        proof {
            assert(r@ =~= Set::new(
                |j: int| 0 <= j < 560 && balanced_class(sort_desc(shape_at(j))),
            ));
        }
        r
    }

    /// Balanced plus 5-4-2-2 and 6-3-2-2 (52 shapes).
    pub fn semi_balanced() -> (r: ShapeSet)
        ensures
            r@ == Set::new(|j: int| 0 <= j < 560 && semi_balanced_class(sort_desc(shape_at(j)))),
    {
        let a = ShapeSet::balanced();
        let b = ShapeSet::from_class(ShapeClass::c5422());
        let c = ShapeSet::from_class(ShapeClass::c6322());
        let r = a.union(b).union(c);
        proof {
            assert(r@ =~= Set::new(
                |j: int| 0 <= j < 560 && semi_balanced_class(sort_desc(shape_at(j))),
            ));
        }
        r
    }

    /// Every shape whose length in `suit` lies in `lo..=hi`.
    pub fn from_suit_len(suit: Suit, lo: u8, hi: u8) -> (r: ShapeSet)
        ensures
            r@ == Set::new(
                |j: int| 0 <= j < 560 && lo <= len_of(shape_at(j), suit.idx()) <= hi,
            ),
    {
        let r = ShapeSet::build(ShapePred::SuitLen(suit, lo, hi));
        proof {
            assert(r@ =~= Set::new(
                |j: int| 0 <= j < 560 && lo <= len_of(shape_at(j), suit.idx()) <= hi,
            ));
        }
        r
    }

    /// Every shape whose lengths lie in the given `(lo, hi)` ranges, indexed by suit.
    pub fn from_suit_lens(lens: [(u8, u8); 4]) -> (r: ShapeSet)
        ensures
            r@ == Set::new(
                |j: int|
                    0 <= j < 560 && forall|k: int|
                        0 <= k < 4 ==> lens[k].0 <= #[trigger] len_of(shape_at(j), k) <= lens[k].1,
            ),
    {
        let r = ShapeSet::from_suit_len(Suit::Clubs, lens[0].0, lens[0].1).intersect(
            ShapeSet::from_suit_len(Suit::Diamonds, lens[1].0, lens[1].1),
        ).intersect(ShapeSet::from_suit_len(Suit::Hearts, lens[2].0, lens[2].1)).intersect(
            ShapeSet::from_suit_len(Suit::Spades, lens[3].0, lens[3].1),
        );
        proof {
            let target = Set::new(
                |j: int|
                    0 <= j < 560 && forall|k: int|
                        0 <= k < 4 ==> lens[k].0 <= #[trigger] len_of(shape_at(j), k) <= lens[k].1,
            );
            assert forall|j: int| #[trigger] r@.contains(j) == target.contains(j) by {
                if r@.contains(j) {
                    assert forall|k: int| 0 <= k < 4 implies lens[k].0 <= #[trigger] len_of(
                        shape_at(j),
                        k,
                    ) <= lens[k].1 by {
                        if k == 0 {
                        } else if k == 1 {
                        } else if k == 2 {
                        } else {
                        }
                    }
                }
                if target.contains(j) {
                    assert(lens[0].0 <= len_of(shape_at(j), 0) <= lens[0].1);
                    assert(lens[1].0 <= len_of(shape_at(j), 1) <= lens[1].1);
                    assert(lens[2].0 <= len_of(shape_at(j), 2) <= lens[2].1);
                    assert(lens[3].0 <= len_of(shape_at(j), 3) <= lens[3].1);
                }
            }
            assert(r@ =~= target);
        }
        r
    }

    /// Every shape for which `pred` returns `true`.
    pub fn filter<F: Fn(Shape) -> bool>(pred: F) -> (r: ShapeSet)
        requires
            forall|s: Shape| #[trigger] pred.requires((s,)),
        ensures
            r@.subset_of(all_shapes()),
            forall|j: int|
                0 <= j < 560 ==> pred.ensures((Shape::of_lens(shape_at(j)),), #[trigger] r@.contains(j)),
    {
        let mut r = ShapeSet::empty();
        let mut j: u16 = 0;
        while j < 560
            invariant
                j <= 560,
                forall|s: Shape| #[trigger] pred.requires((s,)),
                r@.subset_of(int_range(0, j as int)),
                forall|i: int|
                    0 <= i < j ==> pred.ensures((Shape::of_lens(shape_at(i)),), #[trigger] r@.contains(i)),
            decreases 560 - j,
        {
            let s = Shape::from_index(j);
            proof {
                Shape::lemma_of_view(s);
            }
            let b = pred(s);
            let ghost before = r@;
            if b {
                r = r.with_index(j);
            }
            proof {
                assert(r@.contains(j as int) == b);
                assert forall|i: int| 0 <= i < j implies #[trigger] r@.contains(i) == before.contains(i) by {}
            }
            j = j + 1;
        }
        r
    }

    /// Two sets with the same members.
    pub fn same(self, other: ShapeSet) -> (r: bool)
        ensures
            r == (self@ == other@),
    {
        let mut k: usize = 0;
        while k < 9
            invariant
                k <= 9,
                forall|j: int| 0 <= j < k ==> self.w[j] == other.w[j],
            decreases 9 - k,
        {
            if self.w[k] != other.w[k] {
                proof {
                    if self@ == other@ {
                        ShapeSet::lemma_view_eq(self, other);
                    }
                }
                return false;
            }
            k = k + 1;
        }
        proof {
            assert(self.w =~= other.w);
        }
        true
    }

    /// Member shapes in index order.
    pub fn members(self) -> (r: Vec<Shape>)
        ensures
            r@.map_values(|s: Shape| shape_idx(s@)) == asc_below(self@, 560),
            forall|i: int| 0 <= i < r.len() ==> valid13(#[trigger] r[i]@),
    {
        let mut r: Vec<Shape> = Vec::new();
        let mut j: u16 = 0;
        while j < 560
            invariant
                j <= 560,
                r@.map_values(|s: Shape| shape_idx(s@)) == asc_below(self@, j as int),
                forall|i: int| 0 <= i < r.len() ==> valid13(#[trigger] r[i]@),
            decreases 560 - j,
        {
            if self.contains_index(j) {
                r.push(Shape::from_index(j));
            }
            proof {
                assert(r@.map_values(|s: Shape| shape_idx(s@)) =~= asc_below(self@, j + 1));
            }
            j = j + 1;
        }
        r
    }

    /// A cursor over the member shapes in index order.
    pub fn iter(self) -> (it: ShapeSetIter)
        ensures
            it.rest == self,
    {
        ShapeSetIter { rest: self }
    }

    /// Projection: the range of lengths of `suit` over the members, or `None` when empty.
    pub fn suit_len(self, suit: Suit) -> (r: Option<RangeInclusive<u8>>)
        ensures
            r is None <==> self@ == Set::<int>::empty(),
            r matches Some(rg) ==> !rg@.exhausted && is_projection(
                self@,
                suit.idx(),
                rg@.start as int,
                rg@.end as int,
            ),
    {
        match self.suit_range(suit) {
            None => None,
            Some((lo, hi)) => Some(RangeInclusive::new(lo, hi)),
        }
    }

    /// The projection onto `suit` as a pair of bounds.
    fn suit_range(self, suit: Suit) -> (r: Option<(u8, u8)>)
        ensures
            r is None <==> self@ == Set::<int>::empty(),
            r matches Some(p) ==> is_projection(self@, suit.idx(), p.0 as int, p.1 as int),
    {
        proof {
            use_type_invariant(self);
            self.lemma_inv();
        }
        let mut lo: u8 = 13;
        let mut hi: u8 = 0;
        let mut any = false;
        let mut j: u16 = 0;
        while j < 560
            invariant
                j <= 560,
                self@.subset_of(all_shapes()),
                any <==> exists|i: int| 0 <= i < j && self@.contains(i),
                any ==> is_projection(self@.intersect(int_range(0, j as int)), suit.idx(), lo as int, hi as int),
            decreases 560 - j,
        {
            if self.contains_index(j) {
                let l = Shape::from_index(j).len(suit);
                let ghost old_lo = lo;
                let ghost old_hi = hi;
                let ghost old_any = any;
                if !any || l < lo {
                    lo = l;
                }
                if !any || l > hi {
                    hi = l;
                }
                any = true;
                proof {
                    let s_next = self@.intersect(int_range(0, j + 1));
                    let s_prev = self@.intersect(int_range(0, j as int));
                    assert(s_next.contains(j as int));
                    if old_any {
                        let a = choose|i: int| s_prev.contains(i) && len_of(shape_at(i), suit.idx()) == old_lo;
                        let b = choose|i: int| s_prev.contains(i) && len_of(shape_at(i), suit.idx()) == old_hi;
                        assert(s_next.contains(a));
                        assert(s_next.contains(b));
                    }
                    assert forall|i: int| #[trigger] s_next.contains(i) implies lo <= len_of(shape_at(i), suit.idx()) <= hi by {
                        if i < j {
                            assert(s_prev.contains(i));
                        }
                    }
                }
            } else {
                proof {
                    assert(self@.intersect(int_range(0, j + 1)) =~= self@.intersect(int_range(0, j as int)));
                }
            }
            j = j + 1;
        }
        proof {
            assert(self@.intersect(int_range(0, 560)) =~= self@);
        }
        if any {
            Some((lo, hi))
        } else {
            proof {
                assert forall|i: int| !(#[trigger] self@.contains(i)) by {
                    if self@.contains(i) {
                        assert(all_shapes().contains(i));
                    }
                }
                assert(self@ =~= Set::<int>::empty());
            }
            None
        }
    }

    /// Projection: the classes with at least one member ordering, as a 39-bit mask indexed like
    /// the class table.
    pub fn classes(self) -> (r: u64)
        ensures
            forall|c: int|
                0 <= c < 64 ==> (bit64(r, c) <==> (c < 39 && exists|j: int|
                    #[trigger] self@.contains(j) && class_table(c) == sort_desc(shape_at(j)))),
    {
        proof {
            use_type_invariant(self);
            self.lemma_inv();
        }
        let mut m: u64 = 0;
        let mut j: u16 = 0;
        proof {
            assert forall|c: int| !(#[trigger] bit64(0, c)) by {
                if 0 <= c < 64 {
                    lemma_zero(c as u64);
                }
            }
        }
        while j < 560
            invariant
                j <= 560,
                self@.subset_of(all_shapes()),
                forall|c: int|
                    0 <= c < 64 ==> (#[trigger] bit64(m, c) <==> (c < 39 && exists|i: int|
                        0 <= i < j && self@.contains(i) && class_table(c) == sort_desc(shape_at(i)))),
            decreases 560 - j,
        {
            if self.contains_index(j) {
                let k = class_of(j);
                let b = 1u64 << (k as u64);
                let ghost old_m = m;
                m = m | b;
                proof {
                    assert forall|c: int| 0 <= c < 64 implies (#[trigger] bit64(m, c) <==> (c < 39
                        && exists|i: int|
                        0 <= i < j + 1 && self@.contains(i) && class_table(c) == sort_desc(
                            shape_at(i),
                        ))) by {
                        lemma_or(old_m, b, c as u64);
                        lemma_one(k as u64, c as u64);
                        if c < 39 && class_table(c) == sort_desc(shape_at(j as int)) {
                            lemma_class_table_injective(c, k as int);
                        }
                        if bit64(old_m, c) {
                            let i = choose|i: int|
                                0 <= i < j && self@.contains(i) && class_table(c) == sort_desc(
                                    shape_at(i),
                                );
                            assert(0 <= i < j + 1);
                        }
                    }
                }
            } else {
                proof {
                    assert forall|c: int| 0 <= c < 64 implies (#[trigger] bit64(m, c) <==> (c < 39
                        && exists|i: int|
                        0 <= i < j + 1 && self@.contains(i) && class_table(c) == sort_desc(
                            shape_at(i),
                        ))) by {
                        if c < 39 && exists|i: int|
                            0 <= i < j + 1 && self@.contains(i) && class_table(c) == sort_desc(
                                shape_at(i),
                            ) {
                            let i = choose|i: int|
                                0 <= i < j + 1 && self@.contains(i) && class_table(c) == sort_desc(
                                    shape_at(i),
                                );
                            assert(i != j);
                        }
                    }
                }
            }
            j = j + 1;
        }
        proof {
            assert forall|c: int|
                0 <= c < 64 implies (bit64(m, c) <==> (c < 39 && exists|j: int|
                #[trigger] self@.contains(j) && class_table(c) == sort_desc(shape_at(j)))) by {
                if c < 39 && exists|j: int|
                    #[trigger] self@.contains(j) && class_table(c) == sort_desc(shape_at(j)) {
                    let i = choose|j: int|
                        #[trigger] self@.contains(j) && class_table(c) == sort_desc(shape_at(j));
                    assert(all_shapes().contains(i));
                }
            }
        }
        m
    }

    /// `Some(ranges)` exactly when the set equals the product of its per-suit projections.
    pub fn factor(self) -> (r: Option<[RangeInclusive<u8>; 4]>)
        ensures
            r matches Some(a) ==> {
                &&& forall|k: int| 0 <= k < 4 ==> !a[k]@.exhausted && is_projection(self@, k, a[k]@.start as int, a[k]@.end as int)
                &&& self@ == product(
                    seq![a[0]@.start as int, a[1]@.start as int, a[2]@.start as int, a[3]@.start as int],
                    seq![a[0]@.end as int, a[1]@.end as int, a[2]@.end as int, a[3]@.end as int],
                )
            },
            r is None ==> self@ == Set::<int>::empty() || forall|lo: Seq<int>, hi: Seq<int>|
                lo.len() == 4 && hi.len() == 4 && (forall|k: int| 0 <= k < 4 ==> is_projection(self@, k, #[trigger] lo[k], hi[k]))
                ==> self@ != product(lo, hi),
    {
        let c = match self.suit_range(Suit::Clubs) {
            Some(p) => p,
            None => return None,
        };
        let d = match self.suit_range(Suit::Diamonds) {
            Some(p) => p,
            None => return None,
        };
        let h = match self.suit_range(Suit::Hearts) {
            Some(p) => p,
            None => return None,
        };
        let s = match self.suit_range(Suit::Spades) {
            Some(p) => p,
            None => return None,
        };
        let prod = ShapeSet::from_suit_lens([c, d, h, s]);
        let ghost lo = seq![c.0 as int, d.0 as int, h.0 as int, s.0 as int];
        let ghost hi = seq![c.1 as int, d.1 as int, h.1 as int, s.1 as int];
        proof {
            assert(prod@ =~= product(lo, hi)) by {
                assert forall|j: int| #[trigger] prod@.contains(j) == product(lo, hi).contains(j) by {
                    if prod@.contains(j) {
                        assert forall|k: int| 0 <= k < 4 implies lo[k] <= #[trigger] len_of(shape_at(j), k) <= hi[k] by {
                            if k == 0 {} else if k == 1 {} else if k == 2 {} else {}
                        }
                    }
                    if product(lo, hi).contains(j) {
                        assert(lo[0] <= len_of(shape_at(j), 0) <= hi[0]);
                        assert(lo[1] <= len_of(shape_at(j), 1) <= hi[1]);
                        assert(lo[2] <= len_of(shape_at(j), 2) <= hi[2]);
                        assert(lo[3] <= len_of(shape_at(j), 3) <= hi[3]);
                    }
                }
            }
        }
        if prod.same(self) {
            let a = [
                RangeInclusive::new(c.0, c.1),
                RangeInclusive::new(d.0, d.1),
                RangeInclusive::new(h.0, h.1),
                RangeInclusive::new(s.0, s.1),
            ];
            proof {
                assert(seq![a[0]@.start as int, a[1]@.start as int, a[2]@.start as int, a[3]@.start as int] =~= lo);
                assert(seq![a[0]@.end as int, a[1]@.end as int, a[2]@.end as int, a[3]@.end as int] =~= hi);
                assert forall|k: int| 0 <= k < 4 implies !a[k]@.exhausted && is_projection(self@, k, a[k]@.start as int, a[k]@.end as int) by {
                    if k == 0 {} else if k == 1 {} else if k == 2 {} else {}
                }
            }
            Some(a)
        } else {
            proof {
                assert forall|lo2: Seq<int>, hi2: Seq<int>|
                    lo2.len() == 4 && hi2.len() == 4 && (forall|k: int| 0 <= k < 4 ==> is_projection(self@, k, #[trigger] lo2[k], hi2[k]))
                    implies self@ != product(lo2, hi2) by {
                    assert forall|k: int| 0 <= k < 4 implies lo2[k] == lo[k] && hi2[k] == hi[k] by {
                        assert(is_projection(self@, k, lo2[k], hi2[k]));
                        if k == 0 {
                            lemma_projection_unique(self@, k, lo2[k], hi2[k], lo[k], hi[k]);
                        } else if k == 1 {
                            lemma_projection_unique(self@, k, lo2[k], hi2[k], lo[k], hi[k]);
                        } else if k == 2 {
                            lemma_projection_unique(self@, k, lo2[k], hi2[k], lo[k], hi[k]);
                        } else {
                            lemma_projection_unique(self@, k, lo2[k], hi2[k], lo[k], hi[k]);
                        }
                    }
                    assert(lo2 =~= lo);
                    assert(hi2 =~= hi);
                }
            }
            None
        }
    }

    /// Minimum over members of the per-suit lower HCP bounds (`0` for the empty set).
    pub fn min_hcp(self) -> (r: u8)
        ensures
            self@ == Set::<int>::empty() ==> r == 0,
            self@ != Set::<int>::empty() ==> is_extreme_bound(self@, r as int, false),
    {
        self.hcp_extreme(false)
    }

    /// Maximum over members of the per-suit upper HCP bounds (`0` for the empty set).
    pub fn max_hcp(self) -> (r: u8)
        ensures
            self@ == Set::<int>::empty() ==> r == 0,
            self@ != Set::<int>::empty() ==> is_extreme_bound(self@, r as int, true),
    {
        self.hcp_extreme(true)
    }

    fn hcp_extreme(self, max: bool) -> (r: u8)
        ensures
            self@ == Set::<int>::empty() ==> r == 0,
            self@ != Set::<int>::empty() ==> is_extreme_bound(self@, r as int, max),
    {
        proof {
            use_type_invariant(self);
            self.lemma_inv();
        }
        let mut best: u8 = 0;
        let mut any = false;
        let mut j: u16 = 0;
        while j < 560
            invariant
                j <= 560,
                self@.subset_of(all_shapes()),
                any <==> exists|i: int| 0 <= i < j && self@.contains(i),
                !any ==> best == 0,
                any ==> is_extreme_bound(self@.intersect(int_range(0, j as int)), best as int, max),
            decreases 560 - j,
        {
            if self.contains_index(j) {
                let v = hcp_bound_value(Shape::from_index(j), max);
                let ghost old_best = best;
                let ghost old_any = any;
                if !any || (max && v > best) || (!max && v < best) {
                    best = v;
                }
                any = true;
                proof {
                    let s_next = self@.intersect(int_range(0, j + 1));
                    let s_prev = self@.intersect(int_range(0, j as int));
                    assert(s_next.contains(j as int));
                    if old_any {
                        let a = choose|i: int| s_prev.contains(i) && hcp_bound(shape_at(i), max) == old_best;
                        assert(s_next.contains(a));
                    }
                    assert forall|i: int| #[trigger] s_next.contains(i) implies (if max {
                        hcp_bound(shape_at(i), max) <= best
                    } else {
                        best <= hcp_bound(shape_at(i), max)
                    }) by {
                        if i < j {
                            assert(s_prev.contains(i));
                        }
                    }
                }
            } else {
                proof {
                    assert(self@.intersect(int_range(0, j + 1)) =~= self@.intersect(int_range(0, j as int)));
                }
            }
            j = j + 1;
        }
        proof {
            assert(self@.intersect(int_range(0, 560)) =~= self@);
            if !any {
                assert forall|i: int| !(#[trigger] self@.contains(i)) by {
                    if self@.contains(i) {
                        assert(all_shapes().contains(i));
                    }
                }
                assert(self@ =~= Set::<int>::empty());
            }
        }
        best
    }

    /// `true` when `self ⊆ other`.
    pub fn is_subset(self, other: ShapeSet) -> (r: bool)
        ensures
            r == self@.subset_of(other@),
    {
        let mut k: usize = 0;
        while k < 9
            invariant
                k <= 9,
                forall|i: int| 0 <= i < 64 * k ==> (#[trigger] self@.contains(i) ==> other@.contains(i)),
            decreases 9 - k,
        {
            let d = self.w[k] & !other.w[k];
            if d != 0 {
                proof {
                    let j = lemma_some_bit(d);
                    lemma_and_not(self.w[k as int], other.w[k as int], j as u64);
                    lemma_div64(k as int, j);
                    assert(self@.contains(64 * k + j) && !other@.contains(64 * k + j));
                }
                return false;
            }
            proof {
                assert forall|i: int| 0 <= i < 64 * (k + 1) implies (#[trigger] self@.contains(i)
                    ==> other@.contains(i)) by {
                    if i >= 64 * k {
                        lemma_div64(k as int, i - 64 * k);
                        lemma_and_not(self.w[k as int], other.w[k as int], (i - 64 * k) as u64);
                        lemma_zero((i - 64 * k) as u64);
                    }
                }
            }
            k = k + 1;
        }
        true
    }
}

/// The shape indices whose shapes satisfy `p`.
pub open spec fn shapes_where(p: spec_fn(Lens) -> bool) -> Set<int> {
    Set::new(|j: int| 0 <= j < 560 && p(shape_at(j)))
}

/// Sum over the four suits of a per-length table.
pub open spec fn hcp_bound(t: Lens, max: bool) -> int {
    len_hcp(t.0, max) + len_hcp(t.1, max) + len_hcp(t.2, max) + len_hcp(t.3, max)
}

/// Maximum (or minimum) high-card points of a suit of length `l`.
pub open spec fn len_hcp(l: int, max: bool) -> int {
    if max {
        if l <= 0 {
            0
        } else if l == 1 {
            4
        } else if l == 2 {
            7
        } else if l == 3 {
            9
        } else {
            10
        }
    } else {
        if l <= 9 {
            0
        } else if l == 10 {
            1
        } else if l == 11 {
            3
        } else if l == 12 {
            6
        } else {
            10
        }
    }
}

/// Maximum high-card points a suit of the given length can hold (`MAX_HCP[len]`).
pub const MAX_HCP: [u8; 14] = [0, 4, 7, 9, 10, 10, 10, 10, 10, 10, 10, 10, 10, 10];

/// Minimum high-card points a suit of the given length must hold (`MIN_HCP[len]`).
pub const MIN_HCP: [u8; 14] = [0, 0, 0, 0, 0, 0, 0, 0, 0, 0, 1, 3, 6, 10];

fn len_hcp_value(l: u8, max: bool) -> (r: u8)
    requires
        l <= 13,
    ensures
        r == len_hcp(l as int, max),
        r <= 10,
{
    if max {
        if l == 0 {
            0
        } else if l == 1 {
            4
        } else if l == 2 {
            7
        } else if l == 3 {
            9
        } else {
            10
        }
    } else {
        if l <= 9 {
            0
        } else if l == 10 {
            1
        } else if l == 11 {
            3
        } else if l == 12 {
            6
        } else {
            10
        }
    }
}

fn hcp_bound_value(s: Shape, max: bool) -> (r: u8)
    ensures
        r == hcp_bound(s@, max),
        r <= 40,
{
    let l = s.lens();
    proof {
        assert(l@[0] == s@.0 as u8 && l@[1] == s@.1 as u8 && l@[2] == s@.2 as u8 && l@[3]
            == s@.3 as u8);
    }
    len_hcp_value(l[0], max) + len_hcp_value(l[1], max) + len_hcp_value(l[2], max)
        + len_hcp_value(l[3], max)
}

/// A predicate on shapes used by the set builders.
#[derive(Clone, Copy)]
enum ShapePred {
    SuitLen(Suit, u8, u8),
    Class(ShapeClass),
}

impl ShapePred {
    spec fn holds(self, t: Lens) -> bool {
        match self {
            ShapePred::SuitLen(suit, lo, hi) => lo <= len_of(t, suit.idx()) <= hi,
            ShapePred::Class(k) => sort_desc(t) == k@,
        }
    }

    fn test(&self, s: Shape) -> (b: bool)
        ensures
            b == self.holds(s@),
    {
        match self {
            ShapePred::SuitLen(suit, lo, hi) => {
                let l = s.len(*suit);
                l >= *lo && l <= *hi
            },
            ShapePred::Class(k) => {
                let c = s.class();
                proof {
                    if c == *k {
                    } else {
                        if c@ == k@ {
                            ShapeClass::lemma_view_eq(c, *k);
                        }
                    }
                }
                c == *k
            },
        }
    }
}

/// `lo..=hi` is the range of the lengths of suit `k` over the members of `s`.
pub open spec fn is_projection(s: Set<int>, k: int, lo: int, hi: int) -> bool {
    &&& exists|j: int| s.contains(j) && len_of(shape_at(j), k) == lo
    &&& exists|j: int| s.contains(j) && len_of(shape_at(j), k) == hi
    &&& forall|j: int| #[trigger] s.contains(j) ==> lo <= len_of(shape_at(j), k) <= hi
}

/// The shapes whose length in each suit `k` lies in `lo[k]..=hi[k]`.
pub open spec fn product(lo: Seq<int>, hi: Seq<int>) -> Set<int> {
    Set::new(
        |j: int|
            0 <= j < 560 && forall|k: int|
                0 <= k < 4 ==> lo[k] <= #[trigger] len_of(shape_at(j), k) <= hi[k],
    )
}

/// `v` is the least (or greatest) per-suit HCP bound over the members of `s`.
pub open spec fn is_extreme_bound(s: Set<int>, v: int, max: bool) -> bool {
    &&& exists|j: int| s.contains(j) && hcp_bound(shape_at(j), max) == v
    &&& forall|j: int|
        #[trigger] s.contains(j) ==> if max {
            hcp_bound(shape_at(j), max) <= v
        } else {
            v <= hcp_bound(shape_at(j), max)
        }
}

/// Projections are unique.
pub proof fn lemma_projection_unique(s: Set<int>, k: int, lo: int, hi: int, lo2: int, hi2: int)
    requires
        is_projection(s, k, lo, hi),
        is_projection(s, k, lo2, hi2),
    ensures
        lo == lo2,
        hi == hi2,
{
    let a = choose|j: int| s.contains(j) && len_of(shape_at(j), k) == lo;
    let b = choose|j: int| s.contains(j) && len_of(shape_at(j), k) == lo2;
    let c = choose|j: int| s.contains(j) && len_of(shape_at(j), k) == hi;
    let d = choose|j: int| s.contains(j) && len_of(shape_at(j), k) == hi2;
    assert(s.contains(a) && s.contains(b) && s.contains(c) && s.contains(d));
}

/// Cursor over the members of a [`ShapeSet`] in index order.
#[derive(Clone, Copy, Debug)]
pub struct ShapeSetIter {
    /// The members not yet returned.
    pub rest: ShapeSet,
}

impl ShapeSetIter {
    /// The number of members not yet returned, as a lower and an exact upper bound.
    pub fn size_hint(&self) -> (r: (usize, Option<usize>))
        ensures
            r.0 == self.rest@.len(),
            r.1 == Some(r.0),
    {
        let n = self.rest.len() as usize;
        (n, Some(n))
    }

    /// The member with the lowest index, which is then removed; `None` when none remain.
    pub fn next(&mut self) -> (r: Option<Shape>)
        ensures
            r is None <==> old(self).rest@ == Set::<int>::empty(),
            r is None ==> final(self).rest == old(self).rest,
            r matches Some(s) ==> valid13(s@) && old(self).rest@.contains(shape_idx(s@))
                && final(self).rest@ == old(self).rest@.remove(shape_idx(s@)) && forall|j: int|
                #[trigger] old(self).rest@.contains(j) ==> shape_idx(s@) <= j,
            r is None <==> asc_below(old(self).rest@, 560).len() == 0,
            r matches Some(s) ==> shape_idx(s@) == asc_below(old(self).rest@, 560)[0]
                && asc_below(final(self).rest@, 560) == asc_below(old(self).rest@, 560).drop_first(),
    {
        proof {
            use_type_invariant(self.rest);
            self.rest.lemma_inv();
        }
        let mut j: u16 = 0;
        while j < 560
            invariant
                j <= 560,
                self.rest == old(self).rest,
                self.rest@.subset_of(all_shapes()),
                forall|i: int| 0 <= i < j ==> !(#[trigger] self.rest@.contains(i)),
            decreases 560 - j,
        {
            if self.rest.contains_index(j) {
                let s = Shape::from_index(j);
                proof {
                    assert forall|i: int| #[trigger] self.rest@.contains(i) implies j <= i by {}
                }
                proof {
                    assert(all_shapes().contains(j as int));
                    crate::holding::lemma_asc_below_remove_min(self.rest@, j as int, 560);
                }
                self.rest = self.rest.without_index(j);
                return Some(s);
            }
            j = j + 1;
        }
        proof {
            assert forall|i: int| !(#[trigger] self.rest@.contains(i)) by {
                if self.rest@.contains(i) {
                    assert(all_shapes().contains(i));
                }
            }
            assert(self.rest@ =~= Set::<int>::empty());
            crate::holding::lemma_asc_below_none(self.rest@, 560);
        }
        None
    }
}

/// The set of the shapes of one class has exactly that class among its classes: the class
/// mask of [`ShapeSet::from_class`] has the one bit of the class.
pub proof fn lemma_class_set_classes(t: crate::shape::Lens, s: Set<int>, r: u64)
    requires
        crate::shape::sorted_desc(t),
        crate::shape::valid13(t),
        s == Set::new(|j: int| 0 <= j < 560 && crate::shape::sort_desc(crate::shape::shape_at(j)) == t),
        forall|c: int|
            0 <= c < 64 ==> (crate::bits::bit64(r, c) <==> (c < 39 && exists|j: int|
                #[trigger] s.contains(j) && crate::shape::class_table(c) == crate::shape::sort_desc(crate::shape::shape_at(j)))),
    ensures
        forall|c: int| 0 <= c < 64 ==> (crate::bits::bit64(r, c) <==> (c < 39 && crate::shape::class_table(c) == t)),
        exists|k: int| 0 <= k < 39 && crate::shape::class_table(k) == t && crate::bits::bit64(r, k),
{
    let j0 = crate::shape::shape_idx(t);
    crate::shape::lemma_shape_at(t);
    assert(crate::shape::same_lens(t, t));
    crate::shape::lemma_sort_desc(t, t);
    assert(s.contains(j0));
    assert forall|c: int| 0 <= c < 64 implies (crate::bits::bit64(r, c) <==> (c < 39 && crate::shape::class_table(c) == t)) by {
        if c < 39 && crate::shape::class_table(c) == t {
            assert(s.contains(j0) && crate::shape::class_table(c) == crate::shape::sort_desc(crate::shape::shape_at(j0)));
        }
    }
    crate::shape::lemma_class_table_complete(t);
}

/// The members below `n` are finite and number `flat_count(w, n)`.
proof fn lemma_flat_len(w: [u64; 9], n: nat)
    ensures
        Set::new(|i: int| i < n && member(w, i)).finite(),
        Set::new(|i: int| i < n && member(w, i)).len() == flat_count(w, n),
    decreases n,
{
    if n == 0 {
        assert(Set::new(|i: int| i < 0 && member(w, i)) =~= Set::<int>::empty());
    } else {
        let m = (n - 1) as nat;
        lemma_flat_len(w, m);
        let s_m = Set::new(|i: int| i < m && member(w, i));
        let s_n = Set::new(|i: int| i < n && member(w, i));
        if member(w, m as int) {
            assert(s_n =~= s_m.insert(m as int));
        } else {
            assert(s_n =~= s_m);
        }
    }
}

/// Counting within word `k` is the word's population count.
proof fn lemma_flat_word(w: [u64; 9], k: int, j: nat)
    requires
        0 <= k < 9,
        j <= 64,
    ensures
        flat_count(w, (64 * k + j) as nat) == flat_count(w, (64 * k) as nat) + popcount(w[k], j),
    decreases j,
{
    if j > 0 {
        lemma_flat_word(w, k, (j - 1) as nat);
        lemma_div64(k, j - 1);
    }
}

} // verus!
