//! Drawing random hands that satisfy a constraint: bounded rejection first, then, for a
//! constraint without custom predicates, a search through the remaining hands.

use vstd::prelude::*;
use crate::card::{Card, Suit};
use crate::constraint::{holds, lemma_holds_without_custom, no_custom, HandConstraint};
use crate::dist::hand_lens;
use crate::enumerate::{card_seq, hands_between, hands_from, lemma_hands_between, lemma_hands_from_short};
use crate::hand::{deck, suit_ranks, Hand};
use crate::holding::{asc_below, int_range};
use crate::shape::{total_of, valid13};

verus! {

/// The next random `u64` of `rng` (`rand_core::Rng::next_u64`). Nothing is promised of the
/// value: it comes from the generator.
#[verifier::external_body]
fn next_u64<R: rand_core::Rng + ?Sized>(rng: &mut R) -> u64 {
    rng.next_u64()
}

/// How many candidates a call of [`HandConstraint::sample`] draws at most.
pub const MAX_TRIES: u32 = 256;

/// The cards after the first `k` steps of a partial shuffle of `v` driven by `d`: step `i`
/// swaps position `i` with position `i + d[i] mod (|v| − i)`.
pub open spec fn shuffled(v: Seq<int>, d: Seq<u64>, k: nat) -> Seq<int>
    decreases k,
{
    if k == 0 {
        v
    } else {
        let w = shuffled(v, d, (k - 1) as nat);
        let i = k - 1;
        let j = i + (d[i] as int) % (v.len() - i);
        w.update(i, w[j]).update(j, w[i])
    }
}

/// The cards at the first thirteen positions after thirteen shuffle steps.
pub open spec fn picked(v: Seq<int>, d: Seq<u64>) -> Set<int> {
    shuffled(v, d, 13).take(13).to_set()
}

/// The cards outside `excluded`, in ascending order: what the draws shuffle.
pub open spec fn pool_order(excluded: Set<int>) -> Seq<int> {
    asc_below(deck().difference(excluded), 52)
}

/// The candidate hand that the draws `d` pick from the cards outside `excluded`.
pub open spec fn candidate(excluded: Set<int>, d: [u64; 13]) -> Set<int> {
    picked(pool_order(excluded), d@)
}

/// `f` returned `cv` for a hand whose cards are `hs`.
pub open spec fn returned<F: Fn(Hand) -> Vec<bool>>(f: F, hs: Set<int>, cv: Seq<bool>) -> bool {
    exists|h: Hand, v: Vec<bool>| h@ == hs && #[trigger] f.ensures((h,), v) && v@ == cv
}

/// A partial shuffle keeps the length and the members, and keeps them distinct.
proof fn lemma_shuffled(v: Seq<int>, d: Seq<u64>, k: nat)
    requires
        v.len() >= 13,
        k <= 13,
    ensures
        shuffled(v, d, k).len() == v.len(),
        forall|i: int| 0 <= i < v.len() ==> v.contains(#[trigger] shuffled(v, d, k)[i]),
        v.no_duplicates() ==> shuffled(v, d, k).no_duplicates(),
    decreases k,
{
    if k > 0 {
        lemma_shuffled(v, d, (k - 1) as nat);
        let w = shuffled(v, d, (k - 1) as nat);
        let i = k - 1;
        let j = i + (d[i] as int) % (v.len() - i);
        let s = shuffled(v, d, k);
        assert(s == w.update(i, w[j]).update(j, w[i]));
        assert forall|q: int| 0 <= q < v.len() implies v.contains(#[trigger] s[q]) by {
            if q == j {
                assert(v.contains(w[i]));
            } else if q == i {
                assert(v.contains(w[j]));
            } else {
                assert(v.contains(w[q]));
            }
        }
        if v.no_duplicates() {
            assert forall|p: int, q: int| 0 <= p < s.len() && 0 <= q < s.len() && p != q implies s[p] != s[q] by {
                let pp = if p == i {
                    j
                } else if p == j {
                    i
                } else {
                    p
                };
                let qq = if q == i {
                    j
                } else if q == j {
                    i
                } else {
                    q
                };
                assert(s[p] == w[pp]);
                assert(s[q] == w[qq]);
            }
        }
    }
}

/// Thirteen draws pick thirteen distinct members of a list without repeats.
proof fn lemma_picked(v: Seq<int>, d: Seq<u64>)
    requires
        v.len() >= 13,
        v.no_duplicates(),
    ensures
        picked(v, d).len() == 13,
        forall|c: int| #[trigger] picked(v, d).contains(c) ==> v.contains(c),
{
    lemma_shuffled(v, d, 13);
    let t = shuffled(v, d, 13).take(13);
    assert(t.no_duplicates());
    t.unique_seq_to_set();
    assert forall|c: int| #[trigger] picked(v, d).contains(c) implies v.contains(c) by {
        let q = choose|q: int| 0 <= q < t.len() && t[q] == c;
        assert(v.contains(shuffled(v, d, 13)[q]));
    }
}

/// The members of `s` below `n` in ascending order: no repeats, and exactly those members.
pub(crate) proof fn lemma_asc_below(s: Set<int>, n: int)
    ensures
        asc_below(s, n).no_duplicates(),
        forall|x: int| asc_below(s, n).contains(x) <==> (s.contains(x) && 0 <= x < n),
    decreases n,
{
    if n > 0 {
        lemma_asc_below(s, n - 1);
        let a = asc_below(s, n - 1);
        let tail = if s.contains(n - 1) {
            seq![n - 1]
        } else {
            Seq::<int>::empty()
        };
        let b = asc_below(s, n);
        assert(b == a + tail);
        assert forall|x: int| b.contains(x) implies (s.contains(x) && 0 <= x < n) by {
            let q = choose|q: int| 0 <= q < b.len() && b[q] == x;
            if q < a.len() {
                assert(b[q] == a[q]);
                assert(a.contains(a[q]));
            } else {
                assert(tail.len() > 0);
                assert(s.contains(n - 1));
                assert(b[q] == tail[q - a.len()]);
            }
        }
        assert forall|x: int| (s.contains(x) && 0 <= x < n) implies b.contains(x) by {
            if x < n - 1 {
                assert(a.contains(x));
                let q = choose|q: int| 0 <= q < a.len() && a[q] == x;
                assert(b[q] == x);
            } else {
                assert(tail == seq![n - 1]);
                assert(b[a.len() as int] == x);
            }
        }
        assert forall|p: int, q: int| 0 <= p < b.len() && 0 <= q < b.len() && p != q implies b[p] != b[q] by {
            if p < a.len() && q < a.len() {
            } else if p < a.len() {
                assert(a.contains(b[p]));
            } else if q < a.len() {
                assert(a.contains(b[q]));
            }
        }
    }
}

/// The cards outside `excluded`, listed in order, have no repeats and are exactly those
/// cards; there are as many as the cards outside `excluded`.
proof fn lemma_pool_order(excluded: Set<int>)
    ensures
        pool_order(excluded).no_duplicates(),
        forall|x: int| pool_order(excluded).contains(x) <==> deck().difference(excluded).contains(x),
        pool_order(excluded).len() == deck().difference(excluded).len(),
{
    let s = deck().difference(excluded);
    lemma_asc_below(s, 52);
    let a = pool_order(excluded);
    a.unique_seq_to_set();
    assert(a.to_set() =~= s);
}

/// The four suit lengths of a set of cards add up to its size.
pub(crate) proof fn lemma_lens_total(h: Set<int>)
    requires
        h.subset_of(deck()),
    ensures
        total_of(hand_lens(h)) == h.len(),
{
    crate::holding::lemma_int_range_len(52);
    vstd::set_lib::lemma_len_subset(h, deck());
    let b0 = h.filter(|c: int| c < 13);
    let b1 = h.filter(|c: int| 13 <= c < 26);
    let b2 = h.filter(|c: int| 26 <= c < 39);
    let b3 = h.filter(|c: int| 39 <= c);
    assert forall|s: int| 0 <= s < 4 implies #[trigger] suit_ranks(h, s).len() == h.filter(|c: int| 13 * s <= c < 13 * s + 13).len() by {
        let bs = h.filter(|c: int| 13 * s <= c < 13 * s + 13);
        let f = |c: int| c - 13 * s;
        vstd::set_lib::lemma_len_subset(bs, h);
        assert forall|r: int| #[trigger] suit_ranks(h, s).contains(r) implies bs.map(f).contains(r) by {
            assert(bs.contains(13 * s + r));
            assert(f(13 * s + r) == r);
        }
        assert forall|r: int| #[trigger] bs.map(f).contains(r) implies suit_ranks(h, s).contains(r) by {
            let x = choose|x: int| bs.contains(x) && f(x) == r;
            assert(h.contains(13 * s + r));
        }
        assert(bs.map(f) =~= suit_ranks(h, s));
        vstd::set_lib::lemma_map_size(bs, suit_ranks(h, s), f);
    }
    assert(b0 =~= h.filter(|c: int| 13 * 0 <= c < 13 * 0 + 13));
    assert(b1 =~= h.filter(|c: int| 13 * 1 <= c < 13 * 1 + 13));
    assert(b2 =~= h.filter(|c: int| 13 * 2 <= c < 13 * 2 + 13));
    assert(b3 =~= h.filter(|c: int| 13 * 3 <= c < 13 * 3 + 13));
    assert(suit_ranks(h, 0).len() == b0.len());
    assert(suit_ranks(h, 1).len() == b1.len());
    assert(suit_ranks(h, 2).len() == b2.len());
    assert(suit_ranks(h, 3).len() == b3.len());
    vstd::set_lib::lemma_len_subset(b0, h);
    vstd::set_lib::lemma_len_subset(b1, h);
    vstd::set_lib::lemma_len_subset(b2, h);
    vstd::set_lib::lemma_len_subset(b3, h);
    vstd::set_lib::lemma_set_disjoint_lens(b0, b1);
    vstd::set_lib::lemma_set_disjoint_lens(b0 + b1, b2);
    vstd::set_lib::lemma_set_disjoint_lens(b0 + b1 + b2, b3);
    assert(b0 + b1 + b2 + b3 =~= h);
}

/// Every candidate from at least thirteen cards is a 13-card hand of those cards.
proof fn lemma_candidate(excluded: Set<int>, d: [u64; 13])
    requires
        deck().difference(excluded).len() >= 13,
    ensures
        candidate(excluded, d).len() == 13,
        candidate(excluded, d).subset_of(deck()),
        candidate(excluded, d).disjoint(excluded),
        valid13(hand_lens(candidate(excluded, d))),
{
    lemma_pool_order(excluded);
    lemma_picked(pool_order(excluded), d@);
    let c = candidate(excluded, d);
    assert(c.subset_of(deck().difference(excluded)));
    lemma_lens_total(c);
    crate::shape::lemma_shape_idx_range(hand_lens(c));
}

/// The thirteen cards that the draws `d` pick out of `cards` by a partial shuffle.
pub fn pick13_with(cards: &Vec<Card>, d: [u64; 13]) -> (h: Hand)
    requires
        cards.len() >= 13,
    ensures
        h@ == picked(cards@.map_values(|c: Card| c@), d@),
{
    let ghost cv = cards@.map_values(|c: Card| c@);
    let mut v = cards.clone();
    let n = v.len();
    proof {
        assert(v@ == cards@);
    }
    let mut i: usize = 0;
    while i < 13
        invariant
            n == v.len(),
            n == cards.len(),
            cv == cards@.map_values(|c: Card| c@),
            n >= 13,
            i <= 13,
            v@.map_values(|c: Card| c@) == shuffled(cv, d@, i as nat),
        decreases 13 - i,
    {
        let r = d[i];
        let span = (n - i) as u64;
        let k = i + (r % span) as usize;
        proof {
            assert(k as int == i + (d@[i as int] as int) % (cv.len() - i));
        }
        let ghost w = v@;
        let a = v[i];
        let b = v[k];
        v[i] = b;
        v[k] = a;
        proof {
            assert(v@ == w.update(i as int, b).update(k as int, a));
            assert(v@.map_values(|c: Card| c@) =~= shuffled(cv, d@, (i + 1) as nat));
        }
        i = i + 1;
    }
    let mut h = Hand::empty();
    let mut j: usize = 0;
    while j < 13
        invariant
            n == v.len(),
            n >= 13,
            j <= 13,
            v@.map_values(|c: Card| c@) == shuffled(cv, d@, 13),
            h@ == Set::new(|c: int| exists|k: int| 0 <= k < j && (#[trigger] v@[k])@ == c),
        decreases 13 - j,
    {
        let ghost before = h@;
        h = h.with(v[j]);
        proof {
            assert forall|c: int| h@.contains(c) == (exists|k: int| 0 <= k < j + 1 && (#[trigger] v@[k])@ == c) by {
                if c == v@[j as int]@ {
                    assert(exists|k: int| 0 <= k < j + 1 && (#[trigger] v@[k])@ == c);
                }
                if exists|k: int| 0 <= k < j + 1 && (#[trigger] v@[k])@ == c {
                    let k = choose|k: int| 0 <= k < j + 1 && (#[trigger] v@[k])@ == c;
                    if k < j {
                        assert(before.contains(c));
                    }
                }
            }
            assert(h@ =~= Set::new(|c: int| exists|k: int| 0 <= k < j + 1 && (#[trigger] v@[k])@ == c));
        }
        j = j + 1;
    }
    proof {
        let s = shuffled(cv, d@, 13);
        assert forall|c: int| #[trigger] h@.contains(c) == s.take(13).to_set().contains(c) by {
            if h@.contains(c) {
                let k = choose|k: int| 0 <= k < 13 && (#[trigger] v@[k])@ == c;
                assert(s[k] == v@.map_values(|c: Card| c@)[k]);
                assert(s.take(13)[k] == c);
            }
            if s.take(13).to_set().contains(c) {
                let k = choose|k: int| 0 <= k < 13 && s.take(13)[k] == c;
                assert(s[k] == v@.map_values(|c: Card| c@)[k]);
                assert((v@[k])@ == c);
            }
        }
        assert(h@ =~= picked(cv, d@));
    }
    h
}

/// Thirteen random draws from `rng`.
fn draw13<R: rand_core::Rng + ?Sized>(rng: &mut R) -> (d: [u64; 13]) {
    let mut d = [0u64; 13];
    let mut i: usize = 0;
    while i < 13
        invariant
            i <= 13,
        decreases 13 - i,
    {
        let r = next_u64(rng);
        d.set(i, r);
        i = i + 1;
    }
    d
}

/// The first hand, in the order of the enumeration, that adds `n` of the first `m` cards of
/// `cards` to `acc` and satisfies `c` with no custom values, or `None` when none does.
fn search_from(c: &HandConstraint, acc: Hand, cards: &Vec<Card>, m: usize, n: usize) -> (r: Option<Hand>)
    requires
        m <= cards.len(),
        acc@.len() + n == 13,
        card_seq(cards@).no_duplicates(),
        forall|i: int| 0 <= i < m ==> !acc@.contains(#[trigger] card_seq(cards@)[i]),
    ensures
        match r {
            Option::Some(h) => hands_from(acc@, card_seq(cards@).take(m as int), n as nat).contains(h@)
                && holds(*c, h@, Seq::empty()),
            Option::None => forall|h: Set<int>| #[trigger] hands_from(acc@, card_seq(cards@).take(m as int), n as nat).contains(h)
                ==> !holds(*c, h, Seq::empty()),
        },
    decreases m,
{
    let ghost l = card_seq(cards@).take(m as int);
    proof {
        use_type_invariant(acc);
        acc.lemma_inv();
    }
    if n == 0 {
        proof {
            lemma_lens_total(acc@);
            assert(valid13(hand_lens(acc@)));
            assert(hands_from(acc@, l, 0) == set![acc@]);
        }
        let none: Vec<bool> = Vec::new();
        if c.satisfies(acc, none.as_slice()) {
            return Option::Some(acc);
        }
        return Option::None;
    }
    if m < n {
        proof {
            lemma_hands_from_short(acc@, l, n as nat);
        }
        return Option::None;
    }
    let card = cards[m - 1];
    proof {
        assert(card_seq(cards@)[m - 1] == card@);
        assert forall|i: int| 0 <= i < m - 1 implies !acc@.insert(card@).contains(#[trigger] card_seq(cards@)[i]) by {
            assert(card_seq(cards@)[i] != card_seq(cards@)[m - 1]);
        }
        assert(l.drop_last() =~= card_seq(cards@).take(m - 1));
        assert(l.last() == card@);
        assert(hands_from(acc@, l, n as nat) == hands_from(acc@, l.drop_last(), n as nat).union(
            hands_from(acc@.insert(l.last()), l.drop_last(), (n - 1) as nat)));
    }
    match search_from(c, acc, cards, m - 1, n) {
        Option::Some(h) => {
            return Option::Some(h);
        },
        Option::None => {},
    }
    search_from(c, acc.with(card), cards, m - 1, n - 1)
}

impl HandConstraint {
    /// Bounded rejection on given draws: the first candidate hand that the draws pick from
    /// the deck minus `excluded` and that satisfies the constraint (the values of its custom
    /// predicates coming from `custom`), or `None` when none does or fewer than 13 cards are
    /// left.
    pub fn sample_with<F: Fn(Hand) -> Vec<bool>>(&self, draws: &Vec<[u64; 13]>, excluded: Hand, custom: &F) -> (r: Option<Hand>)
        requires
            forall|h: Hand| #[trigger] custom.requires((h,)),
        ensures
            deck().difference(excluded@).len() < 13 ==> r is None,
            deck().difference(excluded@).len() >= 13 ==> match r {
                Option::Some(h) => exists|k: int, cvs: Seq<Seq<bool>>|
                    #![trigger cvs[k], draws@[k]]
                    {
                        &&& 0 <= k < draws.len()
                        &&& cvs.len() == k + 1
                        &&& h@ == candidate(excluded@, draws@[k])
                        &&& forall|j: int| 0 <= j <= k ==> #[trigger] returned(*custom, candidate(excluded@, draws@[j]), cvs[j])
                        &&& forall|j: int| 0 <= j < k ==> !#[trigger] holds(*self, candidate(excluded@, draws@[j]), cvs[j])
                        &&& holds(*self, h@, cvs[k])
                    },
                Option::None => exists|cvs: Seq<Seq<bool>>| {
                    &&& cvs.len() == draws.len()
                    &&& forall|j: int| 0 <= j < draws.len() ==> #[trigger] returned(*custom, candidate(excluded@, draws@[j]), cvs[j])
                    &&& forall|j: int| 0 <= j < draws.len() ==> !#[trigger] holds(*self, candidate(excluded@, draws@[j]), cvs[j])
                },
            },
            r matches Option::Some(h) ==> {
                &&& h@.len() == 13
                &&& h@.disjoint(excluded@)
                &&& h@.subset_of(deck())
                &&& exists|d: [u64; 13]| h@ == #[trigger] candidate(excluded@, d)
                &&& exists|cv: Seq<bool>| #[trigger] returned(*custom, h@, cv) && holds(*self, h@, cv)
            },
    {
        let pool = excluded.complement();
        if pool.len() < 13 {
            return Option::None;
        }
        let cards = pool.cards();
        proof {
            lemma_pool_order(excluded@);
            assert(cards@.map_values(|c: Card| c@) == pool_order(excluded@));
        }
        let ghost mut cvs: Seq<Seq<bool>> = Seq::empty();
        let mut t: usize = 0;
        while t < draws.len()
            invariant
                t <= draws.len(),
                cards.len() >= 13,
                deck().difference(excluded@).len() >= 13,
                cards@.map_values(|c: Card| c@) == pool_order(excluded@),
                forall|h: Hand| #[trigger] custom.requires((h,)),
                cvs.len() == t,
                forall|j: int| 0 <= j < t ==> #[trigger] returned(*custom, candidate(excluded@, draws@[j]), cvs[j]),
                forall|j: int| 0 <= j < t ==> !#[trigger] holds(*self, candidate(excluded@, draws@[j]), cvs[j]),
            decreases draws.len() - t,
        {
            let d = draws[t];
            let h = pick13_with(&cards, d);
            proof {
                lemma_candidate(excluded@, d);
                assert(h@ == candidate(excluded@, d));
            }
            let cv = custom(h);
            let ok = self.satisfies(h, cv.as_slice());
            let ghost old_cvs = cvs;
            proof {
                cvs = cvs.push(cv@);
                assert(returned(*custom, candidate(excluded@, draws@[t as int]), cvs[t as int]));
                assert forall|j: int| 0 <= j <= t implies #[trigger] returned(*custom, candidate(excluded@, draws@[j]), cvs[j]) by {
                    if j < t {
                        assert(cvs[j] == old_cvs[j]);
                    }
                }
            }
            if ok {
                proof {
                    assert forall|j: int| 0 <= j < t implies !#[trigger] holds(*self, candidate(excluded@, draws@[j]), cvs[j]) by {
                        assert(cvs[j] == old_cvs[j]);
                    }
                    assert(returned(*custom, h@, cvs[t as int]));
                    assert(h@ == candidate(excluded@, draws@[t as int]));
                }
                return Option::Some(h);
            }
            proof {
                assert forall|j: int| 0 <= j < t + 1 implies !#[trigger] holds(*self, candidate(excluded@, draws@[j]), cvs[j]) by {
                    if j < t {
                        assert(cvs[j] == old_cvs[j]);
                    }
                }
            }
            t = t + 1;
        }
        Option::None
    }

    /// One random 13-card hand from the deck minus `excluded` that satisfies the constraint,
    /// the values of its custom predicates coming from `custom`: [`HandConstraint::sample_with`]
    /// on [`MAX_TRIES`] sets of thirteen draws from `rng`. When these give no hand and the
    /// constraint has no custom predicate, the remaining hands are searched in turn, so such a
    /// constraint gives `None` only when no hand satisfies it; that search visits every choice
    /// of the remaining cards in the worst case.
    pub fn sample<R: rand_core::Rng + ?Sized, F: Fn(Hand) -> Vec<bool>>(&self, rng: &mut R, excluded: Hand, custom: &F) -> (r: Option<Hand>)
        requires
            forall|h: Hand| #[trigger] custom.requires((h,)),
        ensures
            r matches Option::Some(h) ==> {
                &&& h@.len() == 13
                &&& h@.disjoint(excluded@)
                &&& h@.subset_of(deck())
                &&& exists|cv: Seq<bool>| #[trigger] returned(*custom, h@, cv) && holds(*self, h@, cv)
            },
            deck().difference(excluded@).len() < 13 ==> r is None,
            deck().difference(excluded@).len() >= 13 && (forall|h: Set<int>, cv: Seq<bool>|
                h.len() == 13 && h.subset_of(deck()) ==> #[trigger] holds(*self, h, cv)) ==> r is Some,
            no_custom(*self) && (exists|h: Set<int>, cv: Seq<bool>|
                hands_between(Set::empty(), deck().difference(excluded@)).contains(h) && #[trigger] holds(*self, h, cv)) ==> r is Some,
    {
        let mut draws: Vec<[u64; 13]> = Vec::new();
        let mut t: u32 = 0;
        while t < MAX_TRIES
            invariant
                t <= MAX_TRIES,
                draws.len() == t,
            decreases MAX_TRIES - t,
        {
            draws.push(draw13(rng));
            t = t + 1;
        }
        let r = self.sample_with(&draws, excluded, custom);
        proof {
            if deck().difference(excluded@).len() >= 13 && r is None {
                let cvs = choose|cvs: Seq<Seq<bool>>| {
                    &&& cvs.len() == draws.len()
                    &&& forall|j: int| 0 <= j < draws.len() ==> #[trigger] returned(*custom, candidate(excluded@, draws@[j]), cvs[j])
                    &&& forall|j: int| 0 <= j < draws.len() ==> !#[trigger] holds(*self, candidate(excluded@, draws@[j]), cvs[j])
                };
                lemma_candidate(excluded@, draws@[0]);
                assert(!holds(*self, candidate(excluded@, draws@[0]), cvs[0]));
            }
        }
        if r.is_some() || !self.is_samplable() {
            return r;
        }
        let pool = excluded.complement();
        if pool.len() < 13 {
            proof {
                if no_custom(*self) && (exists|h: Set<int>, cv: Seq<bool>|
                    hands_between(Set::empty(), deck().difference(excluded@)).contains(h) && #[trigger] holds(*self, h, cv)) {
                    let (h, cv) = choose|h: Set<int>, cv: Seq<bool>|
                        hands_between(Set::empty(), deck().difference(excluded@)).contains(h) && #[trigger] holds(*self, h, cv);
                    use_type_invariant(pool);
                    pool.lemma_inv();
                    assert(h.subset_of(pool@));
                    vstd::set_lib::lemma_len_subset(h, pool@);
                }
            }
            return Option::None;
        }
        let cards = pool.cards();
        let ghost l = card_seq(cards@);
        proof {
            lemma_asc_below(pool@, 52);
            assert(l == asc_below(pool@, 52));
            l.unique_seq_to_set();
            assert(l.to_set() =~= pool@);
            lemma_hands_between(Set::empty(), pool@, l);
            assert(l.take(cards.len() as int) =~= l);
        }
        let start = Hand::empty();
        let found = search_from(self, start, &cards, cards.len(), 13);
        match found {
            Option::Some(h) => {
                let cv = custom(h);
                proof {
                    lemma_holds_without_custom(*self, h@, cv@, Seq::empty());
                    assert(hands_between(Set::empty(), pool@).contains(h@));
                    assert(returned(*custom, h@, cv@));
                }
                Option::Some(h)
            },
            Option::None => {
                proof {
                    if exists|h: Set<int>, cv: Seq<bool>|
                        hands_between(Set::empty(), deck().difference(excluded@)).contains(h) && #[trigger] holds(*self, h, cv) {
                        let (h, cv) = choose|h: Set<int>, cv: Seq<bool>|
                            hands_between(Set::empty(), deck().difference(excluded@)).contains(h) && #[trigger] holds(*self, h, cv);
                        lemma_holds_without_custom(*self, h, cv, Seq::empty());
                        assert(hands_from(start@, l.take(cards.len() as int), 13).contains(h));
                    }
                }
                Option::None
            },
        }
    }
}

} // verus!
