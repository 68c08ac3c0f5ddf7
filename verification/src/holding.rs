//! A set of ranks in one suit.

use vstd::prelude::*;
use crate::bits::{
    bitset64, count_ones64, lemma_below_13, lemma_bitset_below, lemma_bitset_len,
    lemma_high_and_left, lemma_high_ops, lemma_high_one, lemma_set_and, lemma_set_and_not,
    lemma_set_low_mask, lemma_set_one, lemma_set_or, lemma_set_subset, lemma_set_zero,
    lemma_submask_le,
};
use crate::card::{Rank, rank_of};

verus! {

/// The integers `lo..hi` as a set (ranks, card indices, shape indices).
pub open spec fn int_range(lo: int, hi: int) -> Set<int> {
    Set::new(|r: int| lo <= r < hi)
}

/// The members of `s` below `n`, in descending order.
pub open spec fn desc_below(s: Set<int>, n: int) -> Seq<int>
    decreases n,
{
    if n <= 0 {
        Seq::empty()
    } else {
        (if s.contains(n - 1) {
            seq![n - 1]
        } else {
            Seq::empty()
        }) + desc_below(s, n - 1)
    }
}

/// The members of `s` below `n`, in ascending order.
pub open spec fn asc_below(s: Set<int>, n: int) -> Seq<int>
    decreases n,
{
    if n <= 0 {
        Seq::empty()
    } else {
        asc_below(s, n - 1) + (if s.contains(n - 1) {
            seq![n - 1]
        } else {
            Seq::empty()
        })
    }
}

/// With no member of `s` below `k`, the list of members below `k` is empty.
pub proof fn lemma_asc_below_none(s: Set<int>, k: int)
    requires
        forall|j: int| 0 <= j < k ==> !#[trigger] s.contains(j),
    ensures
        asc_below(s, k) == Seq::<int>::empty(),
    decreases k,
{
    if k > 0 {
        lemma_asc_below_none(s, k - 1);
        assert(asc_below(s, k) =~= Seq::<int>::empty());
    }
}

/// The least member of `s` heads the list of members below `n`, and removing it drops the
/// head.
pub proof fn lemma_asc_below_remove_min(s: Set<int>, m: int, n: int)
    requires
        s.contains(m),
        0 <= m < n,
        forall|j: int| #[trigger] s.contains(j) ==> m <= j,
    ensures
        asc_below(s, n).len() > 0,
        asc_below(s, n)[0] == m,
        asc_below(s.remove(m), n) == asc_below(s, n).drop_first(),
    decreases n,
{
    if m < n - 1 {
        lemma_asc_below_remove_min(s, m, n - 1);
        let a = asc_below(s, n - 1);
        let b = asc_below(s.remove(m), n - 1);
        let t = if s.contains(n - 1) {
            seq![n - 1]
        } else {
            Seq::<int>::empty()
        };
        assert(s.remove(m).contains(n - 1) == s.contains(n - 1));
        assert(asc_below(s, n) == a + t);
        assert(asc_below(s.remove(m), n) == b + t);
        assert((a + t)[0] == a[0]);
        assert(b + t =~= (a + t).drop_first());
    } else {
        assert forall|j: int| 0 <= j < n - 1 implies !#[trigger] s.contains(j) by {}
        assert forall|j: int| 0 <= j < n - 1 implies !#[trigger] s.remove(m).contains(j) by {}
        lemma_asc_below_none(s, n - 1);
        lemma_asc_below_none(s.remove(m), n - 1);
        assert(asc_below(s, n) =~= seq![m]);
        assert(asc_below(s.remove(m), n) =~= Seq::<int>::empty());
    }
}

/// `0..n` has `n` elements.
pub proof fn lemma_int_range_len(n: int)
    requires
        0 <= n,
    ensures
        int_range(0, n).finite(),
        int_range(0, n).len() == n,
    decreases n,
{
    if n == 0 {
        assert(int_range(0, 0) =~= Set::<int>::empty());
    } else {
        lemma_int_range_len(n - 1);
        assert(int_range(0, n) =~= int_range(0, n - 1).insert(n - 1));
    }
}

/// The cards of one suit, as a 13-bit set: bit `r` is set when rank `r` is held.
#[derive(Clone, Copy, PartialEq, Eq, Structural, Hash, Default, PartialOrd, Ord, Debug)]
pub struct Holding(u16);

impl View for Holding {
    type V = Set<int>;

    /// The rank indices held.
    closed spec fn view(&self) -> Set<int> {
        bitset64(self.0 as u64)
    }
}

impl Holding {
    #[verifier::type_invariant]
    pub(crate) closed spec fn inv(self) -> bool {
        self.0 < 0x2000
    }

    /// The raw 13-bit pattern as a number.
    pub closed spec fn value(self) -> u16 {
        self.0
    }

    /// The facts that follow from the invariant.
    pub(crate) proof fn lemma_inv(self)
        requires
            self.inv(),
        ensures
            self.value() < 0x2000,
            self@ == bitset64(self.value() as u64),
            self@.finite(),
            self@.subset_of(int_range(0, 13)),
            self@.len() <= 13,
    {
        lemma_below_13(self.0 as u64);
        lemma_bitset_below(self.0 as u64, 13);
        lemma_bitset_len(self.0 as u64);
        lemma_int_range_len(13);
        vstd::set_lib::lemma_len_subset(self@, int_range(0, 13));
    }

    /// Holdings are determined by their rank sets.
    pub proof fn lemma_view_eq(a: Holding, b: Holding)
        requires
            a@ == b@,
        ensures
            a == b,
    {
        crate::bits::lemma_ext_set(a.0 as u64, b.0 as u64);
    }

    /// The holding with pattern `bits` (the caller guarantees `bits < 2^13`).
    pub(crate) fn from_raw(bits: u16) -> (h: Holding)
        requires
            bits < 0x2000,
        ensures
            h.value() == bits,
            h@ == bitset64(bits as u64),
    {
        Holding(bits)
    }

    /// The empty holding.
    pub fn empty() -> (h: Holding)
        ensures
            h@ == Set::<int>::empty(),
    {
        proof {
            lemma_set_zero(0);
        }
        Holding(0)
    }

    /// The full holding.
    pub fn full() -> (h: Holding)
        ensures
            h@ == int_range(0, 13),
    {
        proof {
            lemma_full13();
        }
        Holding(0x1FFF)
    }

    /// Builds a holding from its bit pattern, or `None` if any bit above 12 is set.
    pub fn from_bits(bits: u16) -> (r: Option<Holding>)
        ensures
            r is Some <==> bits < 0x2000,
            r matches Some(h) ==> h.value() == bits && h@ == bitset64(bits as u64),
    {
        if bits & !0x1FFFu16 == 0 {
            proof {
                assert(bits & !0x1FFFu16 == 0 ==> bits < 0x2000) by (bit_vector);
            }
            Some(Holding(bits))
        } else {
            proof {
                assert(bits & !0x1FFFu16 != 0 ==> bits >= 0x2000) by (bit_vector);
            }
            None
        }
    }

    /// The raw 13-bit pattern.
    pub fn bits(self) -> (r: u16)
        ensures
            r == self.value(),
            r < 0x2000,
            self@ == bitset64(r as u64),
    {
        proof {
            use_type_invariant(self);
        }
        self.0
    }

    /// Number of cards held.
    pub fn len(self) -> (r: u8)
        ensures
            r == self@.len(),
            r <= 13,
    {
        proof {
            use_type_invariant(self);
            self.lemma_inv();
            lemma_bitset_len(self.0 as u64);
        }
        count_ones64(self.0 as u64) as u8
    }

    /// `true` when no card is held.
    pub fn is_empty(self) -> (r: bool)
        ensures
            r == (self@ == Set::<int>::empty()),
    {
        proof {
            lemma_set_zero(self.0 as u64);
        }
        self.0 == 0
    }

    /// Whether `rank` is held.
    pub fn contains(self, rank: Rank) -> (r: bool)
        ensures
            r == self@.contains(rank.idx()),
    {
        let i = rank.index();
        ((self.0 as u64) >> (i as u64)) & 1 == 1
    }

    /// This holding plus `rank`.
    pub fn with(self, rank: Rank) -> (h: Holding)
        ensures
            h@ == self@.insert(rank.idx()),
    {
        proof {
            use_type_invariant(self);
        }
        let k = rank.index() as u64;
        let b = 1u64 << k;
        let v = (self.0 as u64) | b;
        proof {
            lemma_set_or(self.0 as u64, b);
            lemma_set_one(k);
            lemma_below_13(self.0 as u64);
            lemma_high_one(k, 13);
            lemma_high_ops(self.0 as u64, b, 13);
            lemma_below_13(v);
        }
        Holding(v as u16)
    }

    /// This holding minus `rank`.
    pub fn without(self, rank: Rank) -> (h: Holding)
        ensures
            h@ == self@.remove(rank.idx()),
    {
        proof {
            use_type_invariant(self);
        }
        let k = rank.index() as u64;
        let b = 1u64 << k;
        let v = (self.0 as u64) & !b;
        proof {
            lemma_set_and_not(self.0 as u64, b);
            lemma_set_one(k);
            assert(bitset64(v) =~= self@.remove(rank.idx()));
            lemma_below_13(self.0 as u64);
            lemma_high_and_left(self.0 as u64, b, 13);
            lemma_below_13(v);
        }
        Holding(v as u16)
    }

    /// The highest rank held, or `None` when empty.
    pub fn highest(self) -> (r: Option<Rank>)
        ensures
            r is None <==> self@ == Set::<int>::empty(),
            r matches Some(k) ==> self@.contains(k.idx()) && forall|j: int|
                #[trigger] self@.contains(j) ==> j <= k.idx(),
    {
        proof {
            use_type_invariant(self);
            self.lemma_inv();
        }
        let mut i: u8 = 13;
        while i > 0
            invariant
                i <= 13,
                self@.subset_of(int_range(0, 13)),
                forall|j: int| i <= j < 13 ==> !(#[trigger] self@.contains(j)),
            decreases i,
        {
            if ((self.0 as u64) >> ((i - 1) as u64)) & 1 == 1 {
                proof {
                    assert(self@.contains(i - 1));
                    assert forall|j: int| #[trigger] self@.contains(j) implies j <= i - 1 by {
                        assert(int_range(0, 13).contains(j));
                    }
                }
                return Some(Rank::from_index(i - 1));
            }
            i = i - 1;
        }
        proof {
            assert forall|j: int| !(#[trigger] self@.contains(j)) by {
                if self@.contains(j) {
                    assert(int_range(0, 13).contains(j));
                }
            }
            assert(self@ =~= Set::<int>::empty());
        }
        None
    }

    /// The lowest rank held, or `None` when empty.
    pub fn lowest(self) -> (r: Option<Rank>)
        ensures
            r is None <==> self@ == Set::<int>::empty(),
            r matches Some(k) ==> self@.contains(k.idx()) && forall|j: int|
                #[trigger] self@.contains(j) ==> k.idx() <= j,
    {
        proof {
            use_type_invariant(self);
            self.lemma_inv();
        }
        let mut i: u8 = 0;
        while i < 13
            invariant
                i <= 13,
                self@.subset_of(int_range(0, 13)),
                forall|j: int| 0 <= j < i ==> !(#[trigger] self@.contains(j)),
            decreases 13 - i,
        {
            if ((self.0 as u64) >> (i as u64)) & 1 == 1 {
                proof {
                    assert(self@.contains(i as int));
                    assert forall|j: int| #[trigger] self@.contains(j) implies i <= j by {
                        assert(int_range(0, 13).contains(j));
                    }
                }
                return Some(Rank::from_index(i));
            }
            i = i + 1;
        }
        proof {
            assert forall|j: int| !(#[trigger] self@.contains(j)) by {
                if self@.contains(j) {
                    assert(int_range(0, 13).contains(j));
                }
            }
            assert(self@ =~= Set::<int>::empty());
        }
        None
    }

    /// The `n` highest ranks (A, K, Q, …) as a holding; `n` is clamped to 13.
    pub fn top_ranks(n: u8) -> (h: Holding)
        ensures
            h@ == int_range(13 - (if n > 13 { 13 } else { n as int }), 13),
    {
        let n = if n > 13 {
            13
        } else {
            n
        };
        let mut v: u64 = 0;
        let mut i: u8 = 13 - n;
        proof {
            lemma_set_zero(0);
            assert(bitset64(0) =~= int_range(13 - n, 13 - n));
        }
        while i < 13
            invariant
                13 - n <= i <= 13,
                v < 0x2000,
                bitset64(v) == int_range(13 - n, i as int),
            decreases 13 - i,
        {
            let b = 1u64 << (i as u64);
            let nv = v | b;
            proof {
                lemma_set_or(v, b);
                lemma_set_one(i as u64);
                assert(bitset64(nv) =~= int_range(13 - n, i + 1));
                lemma_below_13(v);
                lemma_high_one(i as u64, 13);
                lemma_high_ops(v, b, 13);
                lemma_below_13(nv);
            }
            v = nv;
            i = i + 1;
        }
        Holding(v as u16)
    }

    /// Set union.
    pub fn union(self, other: Holding) -> (h: Holding)
        ensures
            h@ == self@.union(other@),
    {
        proof {
            use_type_invariant(self);
            use_type_invariant(other);
            lemma_set_or(self.0 as u64, other.0 as u64);
            lemma_below_13(self.0 as u64);
            lemma_below_13(other.0 as u64);
            lemma_high_ops(self.0 as u64, other.0 as u64, 13);
            lemma_below_13((self.0 as u64) | (other.0 as u64));
        }
        Holding(((self.0 as u64) | (other.0 as u64)) as u16)
    }

    /// Set intersection.
    pub fn intersect(self, other: Holding) -> (h: Holding)
        ensures
            h@ == self@.intersect(other@),
    {
        proof {
            use_type_invariant(self);
            lemma_set_and(self.0 as u64, other.0 as u64);
            lemma_below_13(self.0 as u64);
            lemma_high_and_left(self.0 as u64, other.0 as u64, 13);
            lemma_below_13((self.0 as u64) & (other.0 as u64));
        }
        Holding(((self.0 as u64) & (other.0 as u64)) as u16)
    }

    /// Set difference `self \ other`.
    pub fn difference(self, other: Holding) -> (h: Holding)
        ensures
            h@ == self@.difference(other@),
    {
        proof {
            use_type_invariant(self);
            lemma_set_and_not(self.0 as u64, other.0 as u64);
            lemma_below_13(self.0 as u64);
            lemma_high_and_left(self.0 as u64, other.0 as u64, 13);
            lemma_below_13((self.0 as u64) & !(other.0 as u64));
        }
        Holding(((self.0 as u64) & !(other.0 as u64)) as u16)
    }

    /// Complement within the suit (always masked to 13 bits).
    pub fn complement(self) -> (h: Holding)
        ensures
            h@ == int_range(0, 13).difference(self@),
    {
        proof {
            lemma_set_and_not(0x1FFF, self.0 as u64);
            lemma_full13();
            lemma_below_13(0x1FFF);
            lemma_high_and_left(0x1FFF, self.0 as u64, 13);
            lemma_below_13(0x1FFFu64 & !(self.0 as u64));
        }
        Holding((0x1FFFu64 & !(self.0 as u64)) as u16)
    }

    /// `true` when `self ⊆ other`.
    pub fn is_subset(self, other: Holding) -> (r: bool)
        ensures
            r == self@.subset_of(other@),
    {
        proof {
            lemma_set_subset(self.0 as u64, other.0 as u64);
        }
        (self.0 as u64) & !(other.0 as u64) == 0
    }

    /// Ranks held, highest first.
    pub fn ranks(self) -> (v: Vec<Rank>)
        ensures
            v@.map_values(|r: Rank| r.idx()) == desc_below(self@, 13),
    {
        let mut v: Vec<Rank> = Vec::new();
        let mut i: u8 = 13;
        while i > 0
            invariant
                i <= 13,
                v@.map_values(|r: Rank| r.idx()) + desc_below(self@, i as int) == desc_below(
                    self@,
                    13,
                ),
            decreases i,
        {
            let r = Rank::from_index(i - 1);
            if self.contains(r) {
                v.push(r);
            }
            proof {
                let m = |r: Rank| r.idx();
                assert(v@.map_values(m) + desc_below(self@, i - 1) =~= desc_below(self@, 13));
            }
            i = i - 1;
        }
        proof {
            assert(v@.map_values(|r: Rank| r.idx()) =~= desc_below(self@, 13));
        }
        v
    }

    /// Every sub-holding of `self` (including the empty one and `self`), in descending numeric
    /// order.
    pub fn submasks(self) -> (v: Vec<Holding>)
        ensures
            forall|i: int| 0 <= i < v.len() ==> #[trigger] v[i]@.subset_of(self@),
            forall|i: int, j: int| 0 <= i < j < v.len() ==> v[j].value() < v[i].value(),
            forall|h: Holding| #[trigger] h@.subset_of(self@) ==> v@.contains(h),
            v.len() >= 1,
            v[0] == self,
            v[v.len() - 1]@ == Set::<int>::empty(),
    {
        let mut it = Submasks::new(self);
        let mut v: Vec<Holding> = Vec::new();
        proof {
            assert forall|h: Holding| #[trigger] h@.subset_of(self@) implies h.value() <= self.value() by {
                Holding::lemma_subset_value(h, self);
            }
        }
        loop
            invariant
                it.mask == self,
                it.current matches Some(c) ==> c <= self.value(),
                forall|i: int| 0 <= i < v.len() ==> #[trigger] v[i]@.subset_of(self@),
                forall|i: int, j: int| 0 <= i < j < v.len() ==> v[j].value() < v[i].value(),
                forall|i: int|
                    #![trigger v[i]]
                    0 <= i < v.len() ==> (it.current matches Some(c) ==> c < v[i].value()),
                forall|h: Holding| #[trigger]
                    h@.subset_of(self@) ==> ((it.current matches Some(c) && h.value() <= c)
                        || v@.contains(h)),
            decreases
                (if it.current is Some {
                    it.current->0 as int + 1
                } else {
                    0
                }),
        {
            let ghost cur = it.current;
            let ghost old_v = v@;
            match it.next() {
                Some(h) => {
                    v.push(h);
                    assert(v@ == old_v.push(h));
                    proof {
                        assert(v[v.len() - 1] == h);
                        assert forall|g: Holding| #[trigger]
                            g@.subset_of(self@) implies ((it.current matches Some(c) && g.value()
                            <= c) || v@.contains(g)) by {
                            if cur matches Some(c0) && g.value() <= c0 {
                                if g.value() >= h.value() {
                                    assert(g.value() == h.value());
                                    Holding::lemma_value_eq(g, h);
                                    assert(v[v.len() - 1] == g);
                                } else {
                                    assert(it.current is Some);
                                }
                            } else {
                                assert(old_v.contains(g));
                                let i = choose|i: int| 0 <= i < old_v.len() && old_v[i] == g;
                                assert(v@[i] == g);
                            }
                        }
                    }
                },
                None => {
                    proof {
                        assert(self@.subset_of(self@));
                        assert(v@.contains(self));
                        let i = choose|i: int| 0 <= i < v.len() && v@[i] == self;
                        if i > 0 {
                            Holding::lemma_subset_value(v[0], self);
                            assert(v[i].value() < v[0].value());
                        }
                        let e = Holding(0);
                        lemma_set_zero(0);
                        assert(e@ == Set::<int>::empty());
                        assert(e@.subset_of(self@));
                        assert(v@.contains(e));
                        let j = choose|j: int| 0 <= j < v.len() && v@[j] == e;
                        if j < v.len() - 1 {
                            assert(v[v.len() - 1].value() < v[j].value());
                        }
                    }
                    return v;
                },
            }
        }
    }
}

proof fn lemma_full13()
    ensures
        bitset64(0x1FFF) == int_range(0, 13),
{
    lemma_set_low_mask(13);
    assert(((1u64 << 13u64) - 1u64) as u64 == 0x1FFFu64) by (bit_vector);
    assert(int_range(0, 13) =~= Set::new(|i: int| 0 <= i < 13u64));
}

/// Cursor over every sub-holding of a [`Holding`] in descending numeric order.
#[derive(Clone, Copy, Debug)]
pub struct Submasks {
    /// The holding whose sub-holdings are enumerated.
    pub mask: Holding,
    /// The largest pattern not yet examined (`None` once exhausted).
    pub current: Option<u16>,
}

impl Submasks {
    /// A cursor over the sub-holdings of `h`, starting with `h` itself.
    pub fn new(h: Holding) -> (it: Submasks)
        ensures
            it.mask == h,
            it.current == Some(h.value()),
    {
        Submasks { mask: h, current: Some(h.bits()) }
    }

    /// The largest sub-holding at or below the cursor; the cursor then moves below it.
    pub fn next(&mut self) -> (r: Option<Holding>)
        ensures
            final(self).mask == old(self).mask,
            old(self).current is None <==> r is None,
            r matches Some(h) ==> {
                &&& h@.subset_of(old(self).mask@)
                &&& h.value() <= old(self).current->0
                &&& forall|g: Holding| #[trigger]
                    g@.subset_of(old(self).mask@) && g.value() <= old(self).current->0
                        ==> g.value() <= h.value()
                &&& final(self).current matches Some(c) ==> c + 1 == h.value()
                &&& final(self).current is None ==> h.value() == 0
            },
            r is None ==> final(self).current is None,
    {
        match self.current {
            None => None,
            Some(c) => {
                let m = self.mask.bits() as u64;
                let mut v: u64 = c as u64;
                proof {
                    lemma_set_subset(0, m);
                    lemma_set_zero(0);
                }
                while (v & !m) != 0
                    invariant
                        v <= c,
                        m == self.mask.value(),
                        self.mask@ == bitset64(m),
                        forall|g: Holding| #[trigger]
                            g@.subset_of(self.mask@) && g.value() <= c ==> g.value() <= v,
                    decreases v,
                {
                    proof {
                        assert(v != 0) by {
                            if v == 0 {
                                assert(0u64 & !m == 0) by (bit_vector);
                            }
                        }
                        assert forall|g: Holding| #[trigger]
                            g@.subset_of(self.mask@) && g.value() <= c implies g.value() <= v
                            - 1 by {
                            g.lemma_view_value();
                            lemma_set_subset(g.value() as u64, m);
                            if g.value() == v {
                                assert(false);
                            }
                        }
                    }
                    v = v - 1;
                }
                proof {
                    lemma_set_subset(v, m);
                    lemma_submask_le(v, m);
                    self.mask.lemma_value_small();
                }
                let h = Holding::from_raw(v as u16);
                self.current = if v == 0 {
                    None
                } else {
                    Some((v - 1) as u16)
                };
                Some(h)
            },
        }
    }
}

impl Holding {
    /// The view of a holding is the bit set of its pattern.
    pub proof fn lemma_view_value(self)
        ensures
            self@ == bitset64(self.value() as u64),
    {
    }

    /// Holdings with the same pattern are equal.
    pub proof fn lemma_value_eq(a: Holding, b: Holding)
        requires
            a.value() == b.value(),
        ensures
            a == b,
    {
    }

    /// A sub-holding has a pattern no larger than the holding's.
    pub proof fn lemma_subset_value(a: Holding, b: Holding)
        requires
            a@.subset_of(b@),
        ensures
            a.value() <= b.value(),
    {
        lemma_set_subset(a.0 as u64, b.0 as u64);
        lemma_submask_le(a.0 as u64, b.0 as u64);
    }

    /// Patterns of holdings are below `2^13` (read from a value obtained by `bits`).
    pub(crate) proof fn lemma_value_small(self)
        requires
            self.inv(),
        ensures
            self.value() < 0x2000,
    {
    }
}

/// Cursor over the ranks of a [`Holding`], highest first.
#[derive(Clone, Copy, Debug)]
pub struct HoldingRanks {
    /// The ranks not yet returned.
    pub rest: Holding,
}

impl HoldingRanks {
    /// A cursor over the ranks of `h`.
    pub fn new(h: Holding) -> (it: HoldingRanks)
        ensures
            it.rest == h,
    {
        HoldingRanks { rest: h }
    }

    /// The highest remaining rank, which is then removed; `None` when none remain.
    pub fn next(&mut self) -> (r: Option<Rank>)
        ensures
            r is None <==> old(self).rest@ == Set::<int>::empty(),
            r is None ==> final(self).rest == old(self).rest,
            r matches Some(k) ==> old(self).rest@.contains(k.idx()) && final(self).rest@ == old(
                self,
            ).rest@.remove(k.idx()) && forall|j: int| #[trigger]
                old(self).rest@.contains(j) ==> j <= k.idx(),
    {
        match self.rest.highest() {
            None => None,
            Some(k) => {
                self.rest = self.rest.without(k);
                Some(k)
            },
        }
    }
}

} // verus!
