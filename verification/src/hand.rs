//! A set of cards.

use vstd::prelude::*;
use crate::bits::{
    bitset64, count_ones64, lemma_below_52, lemma_bitset_below, lemma_bitset_len, lemma_deposit,
    lemma_extract, lemma_high_and_left, lemma_high_ops, lemma_set_and, lemma_set_and_not,
    lemma_set_low_mask, lemma_set_or, lemma_set_subset, lemma_set_zero,
};
use crate::card::{Card, Suit};
use crate::holding::{Holding, int_range, asc_below, lemma_int_range_len};
use crate::shape::Shape;

verus! {

/// The ranks of suit `s` held in the card set `cards`.
pub open spec fn suit_ranks(cards: Set<int>, s: int) -> Set<int> {
    Set::new(|r: int| 0 <= r < 13 && cards.contains(13 * s + r))
}

/// The cards of suit `s` whose ranks are `ranks`.
pub open spec fn suit_block(s: int, ranks: Set<int>) -> Set<int> {
    Set::new(|i: int| 13 * s <= i < 13 * s + 13 && ranks.contains(i - 13 * s))
}

/// The whole deck `0..52`.
pub open spec fn deck() -> Set<int> {
    int_range(0, 52)
}

/// A set of cards as a 52-bit mask: bit `card.index()` is set when the card is held.
///
/// A `Hand` is not required to hold 13 cards: it also represents the remaining cards of a
/// player mid-play, the cards already played, or the pool of unknown cards for a sampler.
#[derive(Clone, Copy, PartialEq, Eq, Structural, Hash, Default, Debug)]
pub struct Hand(u64);

impl View for Hand {
    type V = Set<int>;

    /// The indices of the cards held.
    closed spec fn view(&self) -> Set<int> {
        bitset64(self.0)
    }
}

impl Hand {
    #[verifier::type_invariant]
    pub(crate) closed spec fn inv(self) -> bool {
        self.0 >> 52 == 0
    }

    /// The raw 52-bit pattern as a number.
    pub closed spec fn value(self) -> u64 {
        self.0
    }

    /// The facts that follow from the invariant.
    pub(crate) proof fn lemma_inv(self)
        requires
            self.inv(),
        ensures
            self@.finite(),
            self@.subset_of(deck()),
            self@.len() <= 52,
    {
        lemma_bitset_below(self.0, 52);
        lemma_bitset_len(self.0);
        lemma_int_range_len(52);
        vstd::set_lib::lemma_len_subset(self@, deck());
    }

    /// Hands are determined by their bit patterns.
    pub proof fn lemma_value_eq(a: Hand, b: Hand)
        requires
            a.value() == b.value(),
        ensures
            a == b,
    {
    }

    /// Hands are determined by their card sets.
    pub proof fn lemma_view_eq(a: Hand, b: Hand)
        requires
            a@ == b@,
        ensures
            a == b,
    {
        crate::bits::lemma_ext_set(a.0, b.0);
    }

    /// The cards of suit `s`, as ranks.
    pub open spec fn suit_view(self, s: Suit) -> Set<int> {
        suit_ranks(self@, s.idx())
    }

    /// No cards.
    pub fn empty() -> (h: Hand)
        ensures
            h@ == Set::<int>::empty(),
    {
        proof {
            lemma_set_zero(0);
            lemma_below_52(0);
        }
        Hand(0)
    }

    /// All 52 cards.
    pub fn full() -> (h: Hand)
        ensures
            h@ == deck(),
    {
        proof {
            lemma_full52();
        }
        Hand(0xF_FFFF_FFFF_FFFF)
    }

    /// Builds a hand from its bit pattern, or `None` if any bit above 51 is set.
    pub fn from_bits(bits: u64) -> (r: Option<Hand>)
        ensures
            r is Some <==> bits >> 52 == 0,
            r matches Some(h) ==> h.value() == bits && h@ == bitset64(bits),
    {
        if bits >> 52 == 0 {
            Some(Hand(bits))
        } else {
            None
        }
    }

    /// The raw 52-bit pattern.
    pub fn bits(self) -> (r: u64)
        ensures
            r == self.value(),
            r >> 52 == 0,
            self@ == bitset64(r),
    {
        proof {
            use_type_invariant(self);
        }
        self.0
    }

    /// Builds a hand from four holdings given in suit order (clubs first).
    pub fn from_holdings(clubs: Holding, diamonds: Holding, hearts: Holding, spades: Holding) -> (h:
        Hand)
        ensures
            h@ == suit_block(0, clubs@).union(suit_block(1, diamonds@)).union(
                suit_block(2, hearts@),
            ).union(suit_block(3, spades@)),
    {
        let h = Hand::empty();
        let h = h.with_holding(Suit::Clubs, clubs);
        let h = h.with_holding(Suit::Diamonds, diamonds);
        let h = h.with_holding(Suit::Hearts, hearts);
        let h = h.with_holding(Suit::Spades, spades);
        proof {
            assert(h@ =~= suit_block(0, clubs@).union(suit_block(1, diamonds@)).union(
                suit_block(2, hearts@),
            ).union(suit_block(3, spades@)));
        }
        h
    }

    /// The cards of `suit`.
    pub fn holding(self, suit: Suit) -> (r: Holding)
        ensures
            r@ == self.suit_view(suit),
    {
        let s = suit.shift() as u64;
        let v = (self.0 >> s) & 0x1FFF;
        proof {
            lemma_extract(self.0, s, 0);
            assert forall|j: int| #[trigger] bitset64(v).contains(j) == self.suit_view(
                suit,
            ).contains(j) by {
                if 0 <= j < 64 {
                    lemma_extract(self.0, s, j as u64);
                }
            }
            assert(bitset64(v) =~= self.suit_view(suit));
        }
        Holding::from_raw(v as u16)
    }

    /// This hand with the cards of `suit` replaced by `holding`.
    pub fn with_holding(self, suit: Suit, holding: Holding) -> (h: Hand)
        ensures
            h@ == self@.difference(int_range(13 * suit.idx(), 13 * suit.idx() + 13)).union(
                suit_block(suit.idx(), holding@),
            ),
    {
        proof {
            use_type_invariant(self);
        }
        let s = suit.shift() as u64;
        let m = suit.mask();
        let hb = holding.bits() as u64;
        let d = hb << s;
        let cleared = self.0 & !m;
        let v = cleared | d;
        proof {
            lemma_set_and_not(self.0, m);
            lemma_set_or(cleared, d);
            assert(bitset64(m) =~= int_range(13 * suit.idx(), 13 * suit.idx() + 13));
            assert forall|i: int| #[trigger] bitset64(d).contains(i) == suit_block(
                suit.idx(),
                holding@,
            ).contains(i) by {
                if 0 <= i < 64 {
                    lemma_deposit(hb, s, i as u64);
                    if s <= i < s + 13 {
                        assert(holding@.contains(i - 13 * suit.idx()) == bitset64(hb).contains(
                            i - s,
                        ));
                    }
                }
            }
            assert(bitset64(d) =~= suit_block(suit.idx(), holding@));
            assert(bitset64(v) =~= self@.difference(
                int_range(13 * suit.idx(), 13 * suit.idx() + 13),
            ).union(suit_block(suit.idx(), holding@)));
            lemma_deposit(hb, s, 0);
            lemma_high_and_left(self.0, m, 52);
            lemma_high_ops(cleared, d, 52);
        }
        Hand(v)
    }

    /// Number of cards held.
    pub fn len(self) -> (r: u8)
        ensures
            r == self@.len(),
            r <= 52,
    {
        proof {
            use_type_invariant(self);
            self.lemma_inv();
            lemma_bitset_len(self.0);
        }
        count_ones64(self.0) as u8
    }

    /// `true` when no card is held.
    pub fn is_empty(self) -> (r: bool)
        ensures
            r == (self@ == Set::<int>::empty()),
    {
        proof {
            lemma_set_zero(self.0);
        }
        self.0 == 0
    }

    /// Whether `card` is held.
    pub fn contains(self, card: Card) -> (r: bool)
        ensures
            r == self@.contains(card@),
    {
        let b = card.bit();
        proof {
            lemma_set_and(self.0, b);
            lemma_set_zero(self.0 & b);
            if self@.contains(card@) {
                assert(bitset64(self.0 & b).contains(card@));
            } else {
                assert(bitset64(self.0 & b) =~= Set::<int>::empty());
            }
        }
        self.0 & b != 0
    }

    /// This hand plus `card`.
    pub fn with(self, card: Card) -> (h: Hand)
        ensures
            h@ == self@.insert(card@),
    {
        proof {
            use_type_invariant(self);
        }
        let b = card.bit();
        proof {
            lemma_set_or(self.0, b);
            lemma_high_ops(self.0, b, 52);
        }
        Hand(self.0 | b)
    }

    /// This hand minus `card`.
    pub fn without(self, card: Card) -> (h: Hand)
        ensures
            h@ == self@.remove(card@),
    {
        proof {
            use_type_invariant(self);
        }
        let b = card.bit();
        proof {
            lemma_set_and_not(self.0, b);
            assert(bitset64(self.0 & !b) =~= self@.remove(card@));
            lemma_high_and_left(self.0, b, 52);
        }
        Hand(self.0 & !b)
    }

    /// Set union.
    pub fn union(self, other: Hand) -> (h: Hand)
        ensures
            h@ == self@.union(other@),
    {
        proof {
            use_type_invariant(self);
            use_type_invariant(other);
            lemma_set_or(self.0, other.0);
            lemma_high_ops(self.0, other.0, 52);
        }
        Hand(self.0 | other.0)
    }

    /// Set intersection.
    pub fn intersect(self, other: Hand) -> (h: Hand)
        ensures
            h@ == self@.intersect(other@),
    {
        proof {
            use_type_invariant(self);
            lemma_set_and(self.0, other.0);
            lemma_high_and_left(self.0, other.0, 52);
        }
        Hand(self.0 & other.0)
    }

    /// Set difference `self \ other`.
    pub fn difference(self, other: Hand) -> (h: Hand)
        ensures
            h@ == self@.difference(other@),
    {
        proof {
            use_type_invariant(self);
            lemma_set_and_not(self.0, other.0);
            lemma_high_and_left(self.0, other.0, 52);
        }
        Hand(self.0 & !other.0)
    }

    /// Complement within the deck (always masked to 52 bits).
    pub fn complement(self) -> (h: Hand)
        ensures
            h@ == deck().difference(self@),
    {
        let f = 0xF_FFFF_FFFF_FFFFu64;
        proof {
            lemma_full52();
            lemma_set_and_not(f, self.0);
            lemma_below_52(f);
            lemma_high_and_left(f, self.0, 52);
        }
        Hand(f & !self.0)
    }

    /// `true` when the two hands share no card.
    pub fn is_disjoint(self, other: Hand) -> (r: bool)
        ensures
            r == self@.disjoint(other@),
    {
        proof {
            lemma_set_and(self.0, other.0);
            lemma_set_zero(self.0 & other.0);
            if self@.disjoint(other@) {
                assert(bitset64(self.0 & other.0) =~= Set::<int>::empty());
            } else {
                let i = choose|i: int| self@.contains(i) && other@.contains(i);
                assert(bitset64(self.0 & other.0).contains(i));
            }
        }
        self.0 & other.0 == 0
    }

    /// `true` when `self ⊆ other`.
    pub fn is_subset(self, other: Hand) -> (r: bool)
        ensures
            r == self@.subset_of(other@),
    {
        proof {
            lemma_set_subset(self.0, other.0);
        }
        self.0 & !other.0 == 0
    }

    /// The four suit lengths as a [`Shape`].
    pub fn shape(self) -> (r: Shape)
        ensures
            r@ == (
                self.suit_view(Suit::Clubs).len() as int,
                self.suit_view(Suit::Diamonds).len() as int,
                self.suit_view(Suit::Hearts).len() as int,
                self.suit_view(Suit::Spades).len() as int,
            ),
    {
        Shape::new(
            self.holding(Suit::Clubs).len(),
            self.holding(Suit::Diamonds).len(),
            self.holding(Suit::Hearts).len(),
            self.holding(Suit::Spades).len(),
        )
    }

    /// Cards held, in ascending index order (clubs first, low ranks first).
    pub fn cards(self) -> (v: Vec<Card>)
        ensures
            v@.map_values(|c: Card| c@) == asc_below(self@, 52),
    {
        let mut v: Vec<Card> = Vec::new();
        let mut i: u8 = 0;
        while i < 52
            invariant
                i <= 52,
                v@.map_values(|c: Card| c@) == asc_below(self@, i as int),
            decreases 52 - i,
        {
            let c = Card::from_index_unchecked(i);
            if self.contains(c) {
                v.push(c);
            }
            proof {
                assert(v@.map_values(|c: Card| c@) =~= asc_below(self@, i + 1));
            }
            i = i + 1;
        }
        v
    }
}

proof fn lemma_full52()
    ensures
        bitset64(0xF_FFFF_FFFF_FFFF) == deck(),
        0xF_FFFF_FFFF_FFFFu64 >> 52 == 0,
{
    lemma_set_low_mask(52);
    assert(((1u64 << 52u64) - 1u64) as u64 == 0xF_FFFF_FFFF_FFFFu64) by (bit_vector);
    assert(deck() =~= Set::new(|i: int| 0 <= i < 52u64));
    lemma_below_52(0xF_FFFF_FFFF_FFFF);
}

/// Cursor over the cards of a [`Hand`] in ascending index order.
#[derive(Clone, Copy, Debug)]
pub struct HandCards {
    /// The cards not yet returned.
    pub rest: Hand,
}

impl HandCards {
    /// A cursor over the cards of `h`.
    pub fn new(h: Hand) -> (it: HandCards)
        ensures
            it.rest == h,
    {
        HandCards { rest: h }
    }

    /// The lowest remaining card, which is then removed; `None` when none remain.
    pub fn next(&mut self) -> (r: Option<Card>)
        ensures
            r is None <==> old(self).rest@ == Set::<int>::empty(),
            r is None ==> final(self).rest == old(self).rest,
            r matches Some(c) ==> old(self).rest@.contains(c@) && final(self).rest@ == old(
                self,
            ).rest@.remove(c@) && forall|j: int| #[trigger]
                old(self).rest@.contains(j) ==> c@ <= j,
    {
        proof {
            use_type_invariant(self.rest);
            self.rest.lemma_inv();
        }
        let mut i: u8 = 0;
        while i < 52
            invariant
                i <= 52,
                self.rest == old(self).rest,
                self.rest@.subset_of(deck()),
                forall|j: int| 0 <= j < i ==> !(#[trigger] self.rest@.contains(j)),
            decreases 52 - i,
        {
            let c = Card::from_index_unchecked(i);
            if self.rest.contains(c) {
                proof {
                    assert forall|j: int| #[trigger] self.rest@.contains(j) implies c@ <= j by {
                        assert(deck().contains(j));
                    }
                }
                self.rest = self.rest.without(c);
                return Some(c);
            }
            i = i + 1;
        }
        proof {
            assert forall|j: int| !(#[trigger] self.rest@.contains(j)) by {
                if self.rest@.contains(j) {
                    assert(deck().contains(j));
                }
            }
            assert(self.rest@ =~= Set::<int>::empty());
        }
        None
    }
}

} // verus!
