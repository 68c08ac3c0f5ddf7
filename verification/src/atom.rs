//! Atoms: conjunctions of literals over the original 13-card hand.

use vstd::prelude::*;
use core::ops::RangeInclusive;
use crate::card::Suit;
use crate::dist::{dist_pts, distribution_points, hand_lens, total_points, DistMethod};
use crate::hand::{suit_ranks, Hand};
use crate::holding::Holding;
use crate::metrics::{
    controls, hand_hcp, hcp, honors_of, losers_with, ltc2_of, qt2_of, quick_tricks, rank_count,
    suit_quality, suit_sum, LtcMethod,
};
use crate::range::{in_range, make_range, range_bounds};
use crate::shape::shape_idx;
use crate::shape_set::ShapeSet;

verus! {

/// `popcount(hand ∩ mask) ∈ count`.
///
/// Covers every card condition needed: "♦ has A or K" is `{♦A, ♦K}` with `1..=2`; "no ♠A" is
/// `{♠A}` with `0..=0`; "2+ aces" is all aces with `2..=4`. Negation is the complement of
/// `count`, so no separate "negated" flag is needed.
#[derive(Clone, PartialEq, Eq, Hash, Debug)]
pub struct CardRequirement {
    /// The cards that count.
    pub mask: Hand,
    /// Allowed number of held cards among `mask`.
    pub count: RangeInclusive<u8>,
}

/// A whole-hand metric that an [`EvalRequirement`] constrains.
#[derive(Clone, Copy, PartialEq, Eq, Structural, Hash, Debug)]
pub enum Metric {
    /// Controls (A = 2, K = 1), `0..=12`.
    Controls,
    /// Losing-trick count in half units, `0..=24`.
    Losers(LtcMethod),
    /// Quick tricks in half units, `0..=16`.
    QuickTricks,
    /// Distribution points (clamped at 0).
    DistPoints(DistMethod),
    /// HCP plus distribution points.
    TotalPoints(DistMethod),
    /// Honours (A K Q J T) in one suit, `0..=5`.
    SuitQuality(Suit),
}

/// `metric(hand) ∈ range`.
#[derive(Clone, PartialEq, Eq, Hash, Debug)]
pub struct EvalRequirement {
    /// The metric.
    pub metric: Metric,
    /// Allowed values.
    pub range: RangeInclusive<u8>,
}

/// A conjunction of literals over the original 13-card hand.
///
/// `shapes` carries every length condition; `hcp` is the high-card range; `cards` and `eval`
/// are extra literals. The canonical form keeps `cards` sorted by mask and `eval` sorted by
/// metric, merging equal keys by intersecting their ranges.
#[derive(Clone, PartialEq, Eq, Hash, Debug)]
pub struct Atom {
    /// Allowed shapes.
    pub shapes: ShapeSet,
    /// Allowed high-card points, within `0..=37`.
    pub hcp: RangeInclusive<u8>,
    /// Card requirements.
    pub cards: Vec<CardRequirement>,
    /// Evaluation requirements.
    pub eval: Vec<EvalRequirement>,
}

/// The cards of the suit with index `s`.
pub open spec fn suit_cards(s: int) -> Set<int> {
    crate::holding::int_range(13 * s, 13 * s + 13)
}

/// `x` at least 0.
pub open spec fn nonneg(x: int) -> int {
    if x < 0 {
        0
    } else {
        x
    }
}

/// The value of `m` on the card set `h`.
pub open spec fn metric_value(m: Metric, h: Set<int>) -> int {
    match m {
        Metric::Controls => 2 * rank_count(h, 12) + rank_count(h, 11),
        Metric::Losers(lm) => suit_sum(h, |s: Set<int>| ltc2_of(lm, s)),
        Metric::QuickTricks => suit_sum(h, |s: Set<int>| qt2_of(s)),
        Metric::DistPoints(dm) => nonneg(dist_pts(h, dm)),
        Metric::TotalPoints(dm) => nonneg(hand_hcp(h) + dist_pts(h, dm)),
        Metric::SuitQuality(s) => honors_of(suit_ranks(h, s.idx())),
    }
}

/// The largest value of `m`.
pub open spec fn metric_max(m: Metric) -> int {
    match m {
        Metric::Controls => 12,
        Metric::Losers(_) => 24,
        Metric::QuickTricks => 16,
        Metric::DistPoints(_) => 40,
        Metric::TotalPoints(_) => 77,
        Metric::SuitQuality(_) => 5,
    }
}

/// The sort key of a distribution method.
pub open spec fn dist_key(d: DistMethod) -> int {
    match d {
        DistMethod::ShortSuit { void, singleton, doubleton } => 0x100_0000 + void * 0x1_0000
            + singleton * 0x100 + doubleton,
        DistMethod::LongSuit => 1,
        DistMethod::BergenStarting => 2,
    }
}

/// The sort key of a metric.
pub open spec fn metric_key(m: Metric) -> int {
    match m {
        Metric::Controls => 0,
        Metric::Losers(LtcMethod::Classic) => 1,
        Metric::Losers(LtcMethod::New) => 2,
        Metric::QuickTricks => 3,
        Metric::DistPoints(d) => 0x10_0000_0000 + dist_key(d),
        Metric::TotalPoints(d) => 0x20_0000_0000 + dist_key(d),
        Metric::SuitQuality(s) => 0x30_0000_0000 + s.idx(),
    }
}

/// Whether `h` meets the card requirement `c`.
pub open spec fn card_holds(c: CardRequirement, h: Set<int>) -> bool {
    in_range(c.count, h.intersect(c.mask@).len() as int)
}

/// Whether `h` meets the evaluation requirement `e`.
pub open spec fn eval_holds(e: EvalRequirement, h: Set<int>) -> bool {
    in_range(e.range, metric_value(e.metric, h))
}

/// Whether `h` meets every card requirement of `cs`.
pub open spec fn cards_hold(cs: Seq<CardRequirement>, h: Set<int>) -> bool {
    forall|i: int| 0 <= i < cs.len() ==> card_holds(#[trigger] cs[i], h)
}

/// Whether `h` meets every evaluation requirement of `es`.
pub open spec fn evals_hold(es: Seq<EvalRequirement>, h: Set<int>) -> bool {
    forall|i: int| 0 <= i < es.len() ==> eval_holds(#[trigger] es[i], h)
}

/// Whether the card set `h` satisfies every literal of `a`.
pub open spec fn atom_holds(a: Atom, h: Set<int>) -> bool {
    &&& a.shapes@.contains(shape_idx(hand_lens(h)))
    &&& in_range(a.hcp, hand_hcp(h))
    &&& cards_hold(a.cards@, h)
    &&& evals_hold(a.eval@, h)
}

/// The hands the laws of atoms speak of: a 13-card hand, with at most 37 points and every
/// metric of `es` within its bounds.
pub open spec fn in_domain(h: Set<int>, es: Seq<EvalRequirement>) -> bool {
    &&& h.subset_of(crate::hand::deck())
    &&& crate::shape::valid13(hand_lens(h))
    &&& hand_hcp(h) <= 37
    &&& forall|i: int| 0 <= i < es.len() ==> metric_value((#[trigger] es[i]).metric, h) <= metric_max(es[i].metric)
}

/// On 13-card hands the domain of the atom laws asks only that the metrics of `es` be within
/// their bounds: such a hand has at most 37 points.
pub proof fn lemma_thirteen_card_in_domain(h: Set<int>, es: Seq<EvalRequirement>)
    requires
        h.subset_of(crate::hand::deck()),
        h.len() == 13,
        forall|i: int| 0 <= i < es.len() ==> metric_value((#[trigger] es[i]).metric, h) <= metric_max(es[i].metric),
    ensures
        in_domain(h, es),
{
    crate::holding::lemma_int_range_len(52);
    vstd::set_lib::lemma_len_subset(h, crate::hand::deck());
    crate::sample::lemma_lens_total(h);
    crate::metrics::lemma_hcp_at_most_37(h);
}

/// A copy of `r` (same members, not exhausted).
fn copy_range(r: &RangeInclusive<u8>) -> (c: RangeInclusive<u8>)
    ensures
        forall|x: int| in_range(c, x) == in_range(*r, x),
        !c@.exhausted,
{
    match range_bounds(r) {
        None => make_range(1, 0),
        Some((lo, hi)) => make_range(lo as i16, hi as i16),
    }
}

/// The members of `a` that are also in `b`, as a range.
fn meet_range(a: &RangeInclusive<u8>, b: &RangeInclusive<u8>) -> (c: RangeInclusive<u8>)
    ensures
        forall|x: int| in_range(c, x) == (in_range(*a, x) && in_range(*b, x)),
{
    match (range_bounds(a), range_bounds(b)) {
        (Some((l1, h1)), Some((l2, h2))) => {
            let lo = if l1 > l2 {
                l1
            } else {
                l2
            };
            let hi = if h1 < h2 {
                h1
            } else {
                h2
            };
            make_range(lo as i16, hi as i16)
        },
        _ => make_range(1, 0),
    }
}

/// The members of `r` within `0..=max`.
fn clamp_range(r: &RangeInclusive<u8>, max: u8) -> (c: RangeInclusive<u8>)
    ensures
        forall|x: int| in_range(c, x) == (in_range(*r, x) && x <= max),
{
    match range_bounds(r) {
        None => make_range(1, 0),
        Some((lo, hi)) => make_range(lo as i16, if hi > max {
            max as i16
        } else {
            hi as i16
        }),
    }
}

impl CardRequirement {
    /// A requirement on the ranks of one suit.
    pub fn in_suit(suit: Suit, ranks: Holding, count: RangeInclusive<u8>) -> (r: CardRequirement)
        ensures
            r.mask@ == crate::hand::suit_block(suit.idx(), ranks@),
            r.count == count,
    {
        let e = Hand::empty();
        let mask = e.with_holding(suit, ranks);
        proof {
            assert(mask@ =~= crate::hand::suit_block(suit.idx(), ranks@));
        }
        CardRequirement { mask, count }
    }

    /// `Some(suit)` when `mask` is not empty and every card of it lies in that one suit (the
    /// requirement can then be applied while enumerating that suit).
    pub fn single_suit(&self) -> (r: Option<Suit>)
        ensures
            r is None <==> (self.mask@ == Set::<int>::empty() || forall|s: int|
                0 <= s < 4 ==> !self.mask@.subset_of(#[trigger] suit_cards(s))),
            r matches Some(s) ==> self.mask@ != Set::<int>::empty() && self.mask@.subset_of(
                suit_cards(s.idx()),
            ),
    {
        if self.mask.is_empty() {
            return None;
        }
        let mut k: u8 = 0;
        while k < 4
            invariant
                k <= 4,
                self.mask@ != Set::<int>::empty(),
                forall|s: int| 0 <= s < k ==> !self.mask@.subset_of(#[trigger] suit_cards(s)),
            decreases 4 - k,
        {
            let suit = Suit::from_index(k);
            let outside = self.mask.with_holding(suit, Holding::empty());
            proof {
                let blk = suit_cards(k as int);
                assert(outside@ =~= self.mask@.difference(blk));
            }
            if outside.is_empty() {
                proof {
                    let blk = suit_cards(k as int);
                    assert forall|x: int| self.mask@.contains(x) implies blk.contains(x) by {
                        if !blk.contains(x) {
                            assert(outside@.contains(x));
                        }
                    }
                }
                return Some(suit);
            }
            proof {
                let blk = suit_cards(k as int);
                let x = choose|x: int| outside@.contains(x);
                if forall|x: int| !outside@.contains(x) {
                    assert(outside@ =~= Set::<int>::empty());
                }
                assert(self.mask@.contains(x) && !blk.contains(x));
            }
            k = k + 1;
        }
        None
    }

    /// Whether `hand` meets the requirement.
    pub fn holds(&self, hand: Hand) -> (r: bool)
        ensures
            r == card_holds(*self, hand@),
    {
        let n = hand.intersect(self.mask).len();
        match range_bounds(&self.count) {
            None => false,
            Some((lo, hi)) => lo <= n && n <= hi,
        }
    }
}

impl Metric {
    /// The largest value this metric can take.
    pub fn max(self) -> (r: u8)
        ensures
            r == metric_max(self),
    {
        match self {
            Metric::Controls => 12,
            Metric::Losers(_) => 24,
            Metric::QuickTricks => 16,
            Metric::DistPoints(_) => 40,
            Metric::TotalPoints(_) => 77,
            Metric::SuitQuality(_) => 5,
        }
    }

    /// The sort key of this metric.
    pub fn key(self) -> (r: u64)
        ensures
            r == metric_key(self),
    {
        match self {
            Metric::Controls => 0,
            Metric::Losers(LtcMethod::Classic) => 1,
            Metric::Losers(LtcMethod::New) => 2,
            Metric::QuickTricks => 3,
            Metric::DistPoints(d) => 0x10_0000_0000 + dist_key_of(d),
            Metric::TotalPoints(d) => 0x20_0000_0000 + dist_key_of(d),
            Metric::SuitQuality(s) => 0x30_0000_0000 + s.index() as u64,
        }
    }

    /// Evaluates the metric on `hand`.
    pub fn eval(self, hand: Hand) -> (r: u8)
        ensures
            r == metric_value(self, hand@),
            !(self is DistPoints) && !(self is TotalPoints) ==> r <= metric_max(self),
    {
        match self {
            Metric::Controls => controls(hand),
            Metric::Losers(m) => losers_with(hand, m).halves(),
            Metric::QuickTricks => quick_tricks(hand).halves(),
            Metric::DistPoints(m) => {
                let d = distribution_points(hand, m);
                if d < 0 {
                    0
                } else {
                    d as u8
                }
            },
            Metric::TotalPoints(m) => total_points(hand, m),
            Metric::SuitQuality(s) => suit_quality(hand.holding(s)),
        }
    }
}

/// The sort key of a distribution method.
fn dist_key_of(d: DistMethod) -> (r: u64)
    ensures
        r == dist_key(d),
{
    match d {
        DistMethod::ShortSuit { void, singleton, doubleton } => 0x100_0000 + void as u64 * 0x1_0000
            + singleton as u64 * 0x100 + doubleton as u64,
        DistMethod::LongSuit => 1,
        DistMethod::BergenStarting => 2,
    }
}

/// Metrics are determined by their keys.
pub proof fn lemma_metric_key(a: Metric, b: Metric)
    requires
        metric_key(a) == metric_key(b),
    ensures
        a == b,
{
    match (a, b) {
        (Metric::DistPoints(x), Metric::DistPoints(y)) => lemma_dist_key(x, y),
        (Metric::TotalPoints(x), Metric::TotalPoints(y)) => lemma_dist_key(x, y),
        (Metric::SuitQuality(x), Metric::SuitQuality(y)) => {},
        _ => {},
    }
}

/// Distribution methods are determined by their keys.
proof fn lemma_dist_key(a: DistMethod, b: DistMethod)
    requires
        dist_key(a) == dist_key(b),
    ensures
        a == b,
{
    match (a, b) {
        (
            DistMethod::ShortSuit { void: v1, singleton: s1, doubleton: d1 },
            DistMethod::ShortSuit { void: v2, singleton: s2, doubleton: d2 },
        ) => {
            assert(v1 == v2 && s1 == s2 && d1 == d2) by (nonlinear_arith)
                requires
                    v1 * 0x1_0000 + s1 * 0x100 + d1 == v2 * 0x1_0000 + s2 * 0x100 + d2,
                    v1 < 256,
                    v2 < 256,
                    s1 < 256,
                    s2 < 256,
                    d1 < 256,
                    d2 < 256,
            ;
        },
        _ => {},
    }
}

impl EvalRequirement {
    /// Whether `hand` meets the requirement.
    pub fn holds(&self, hand: Hand) -> (r: bool)
        ensures
            r == eval_holds(*self, hand@),
    {
        let v = self.metric.eval(hand);
        match range_bounds(&self.range) {
            None => false,
            Some((lo, hi)) => lo <= v && v <= hi,
        }
    }
}

/// Copies of the card requirements of `cs`.
fn copy_cards(cs: &Vec<CardRequirement>) -> (r: Vec<CardRequirement>)
    ensures
        r.len() == cs.len(),
        forall|i: int|
            0 <= i < cs.len() ==> (#[trigger] r[i]).mask == cs[i].mask && forall|x: int|
                in_range(r[i].count, x) == in_range(cs[i].count, x),
{
    let mut r: Vec<CardRequirement> = Vec::new();
    let mut i: usize = 0;
    while i < cs.len()
        invariant
            i <= cs.len(),
            r.len() == i,
            forall|k: int|
                0 <= k < i ==> (#[trigger] r[k]).mask == cs[k].mask && forall|x: int|
                    in_range(r[k].count, x) == in_range(cs[k].count, x),
        decreases cs.len() - i,
    {
        r.push(CardRequirement { mask: cs[i].mask, count: copy_range(&cs[i].count) });
        i = i + 1;
    }
    r
}

/// Copies of the evaluation requirements of `es`.
fn copy_evals(es: &Vec<EvalRequirement>) -> (r: Vec<EvalRequirement>)
    ensures
        r.len() == es.len(),
        forall|i: int|
            0 <= i < es.len() ==> (#[trigger] r[i]).metric == es[i].metric && forall|x: int|
                in_range(r[i].range, x) == in_range(es[i].range, x),
{
    let mut r: Vec<EvalRequirement> = Vec::new();
    let mut i: usize = 0;
    while i < es.len()
        invariant
            i <= es.len(),
            r.len() == i,
            forall|k: int|
                0 <= k < i ==> (#[trigger] r[k]).metric == es[k].metric && forall|x: int|
                    in_range(r[k].range, x) == in_range(es[k].range, x),
        decreases es.len() - i,
    {
        r.push(EvalRequirement { metric: es[i].metric, range: copy_range(&es[i].range) });
        i = i + 1;
    }
    r
}

impl Atom {
    /// The unconstrained atom (every hand).
    pub fn any() -> (a: Atom)
        ensures
            a.shapes@ == crate::shape_set::all_shapes(),
            forall|x: int| in_range(a.hcp, x) <==> 0 <= x <= 37,
            a.cards@ == Seq::<CardRequirement>::empty(),
            a.eval@ == Seq::<EvalRequirement>::empty(),
    {
        Atom {
            shapes: ShapeSet::all(),
            hcp: make_range(0, 37),
            cards: Vec::new(),
            eval: Vec::new(),
        }
    }

    /// A copy of this atom (same literals, same members of every range).
    pub fn duplicate(&self) -> (a: Atom)
        ensures
            a.shapes == self.shapes,
            forall|x: int| in_range(a.hcp, x) == in_range(self.hcp, x),
            forall|h: Set<int>| atom_holds(a, h) == atom_holds(*self, h),
            a.cards.len() == self.cards.len(),
            a.eval.len() == self.eval.len(),
            forall|i: int| 0 <= i < a.eval.len() ==> (#[trigger] a.eval[i]).metric == self.eval[i].metric,
    {
        let a = Atom {
            shapes: self.shapes,
            hcp: copy_range(&self.hcp),
            cards: copy_cards(&self.cards),
            eval: copy_evals(&self.eval),
        };
        proof {
            assert forall|h: Set<int>| atom_holds(a, h) == atom_holds(*self, h) by {
                if cards_hold(a.cards@, h) != cards_hold(self.cards@, h) {
                    if cards_hold(a.cards@, h) {
                        let i = choose|i: int| 0 <= i < self.cards@.len() && !card_holds(self.cards@[i], h);
                        assert(card_holds(a.cards@[i], h));
                    } else {
                        let i = choose|i: int| 0 <= i < a.cards@.len() && !card_holds(a.cards@[i], h);
                        assert(card_holds(self.cards@[i], h));
                    }
                }
                if evals_hold(a.eval@, h) != evals_hold(self.eval@, h) {
                    if evals_hold(a.eval@, h) {
                        let i = choose|i: int| 0 <= i < self.eval@.len() && !eval_holds(self.eval@[i], h);
                        assert(eval_holds(a.eval@[i], h));
                    } else {
                        let i = choose|i: int| 0 <= i < a.eval@.len() && !eval_holds(a.eval@[i], h);
                        assert(eval_holds(self.eval@[i], h));
                    }
                }
            }
        }
        a
    }

    /// Whether `hand` (a 13-card hand) satisfies every literal.
    pub fn satisfies(&self, hand: Hand) -> (r: bool)
        requires
            crate::shape::valid13(hand_lens(hand@)),
        ensures
            r == atom_holds(*self, hand@),
    {
        if !self.shapes.contains(hand.shape()) {
            return false;
        }
        let p = hcp(hand);
        match range_bounds(&self.hcp) {
            None => {
                return false;
            },
            Some((lo, hi)) => {
                if p < lo || p > hi {
                    return false;
                }
            },
        }
        let mut i: usize = 0;
        while i < self.cards.len()
            invariant
                i <= self.cards.len(),
                forall|k: int| 0 <= k < i ==> card_holds(#[trigger] self.cards@[k], hand@),
            decreases self.cards.len() - i,
        {
            if !self.cards[i].holds(hand) {
                return false;
            }
            i = i + 1;
        }
        let mut j: usize = 0;
        while j < self.eval.len()
            invariant
                j <= self.eval.len(),
                forall|k: int| 0 <= k < j ==> eval_holds(#[trigger] self.eval@[k], hand@),
            decreases self.eval.len() - j,
        {
            if !self.eval[j].holds(hand) {
                return false;
            }
            j = j + 1;
        }
        true
    }

    /// The HCP range.
    pub fn hcp_range(&self) -> (r: RangeInclusive<u8>)
        ensures
            forall|x: int| in_range(r, x) == in_range(self.hcp, x),
    {
        copy_range(&self.hcp)
    }

    /// Projection of the shapes onto one suit's length (a summary, not a constraint); `1..=0`
    /// when there are no shapes.
    pub fn suit_len(&self, suit: Suit) -> (r: RangeInclusive<u8>)
        ensures
            self.shapes@ == Set::<int>::empty() ==> forall|x: int| !in_range(r, x),
            self.shapes@ != Set::<int>::empty() ==> crate::shape_set::is_projection(
                self.shapes@,
                suit.idx(),
                r@.start as int,
                r@.end as int,
            ) && !r@.exhausted,
    {
        match self.shapes.suit_len(suit) {
            Some(r) => r,
            None => make_range(1, 0),
        }
    }

    /// Restricts the shapes to those whose length in `suit` lies in `range`.
    pub fn with_suit_len(self, suit: Suit, range: RangeInclusive<u8>) -> (a: Atom)
        ensures
            a.shapes@ == self.shapes@.intersect(
                Set::new(
                    |j: int|
                        0 <= j < 560 && range@.start <= crate::shape::len_of(
                            crate::shape::shape_at(j),
                            suit.idx(),
                        ) <= range@.end,
                ),
            ),
            a.hcp == self.hcp,
            a.cards == self.cards,
            a.eval == self.eval,
    {
        let lo = *range.start();
        let hi = *range.end();
        let mut a = self;
        a.shapes = a.shapes.intersect(ShapeSet::from_suit_len(suit, lo, hi));
        a
    }

    /// Sets the HCP range.
    pub fn with_hcp(self, range: RangeInclusive<u8>) -> (a: Atom)
        ensures
            a == (Atom { hcp: range, ..self }),
    {
        let mut a = self;
        a.hcp = range;
        a
    }

    /// Adds a card requirement.
    pub fn with_cards(self, req: CardRequirement) -> (a: Atom)
        ensures
            a.cards@ == self.cards@.push(req),
            a.shapes == self.shapes,
            a.hcp == self.hcp,
            a.eval == self.eval,
    {
        let mut a = self;
        a.cards.push(req);
        a
    }

    /// Adds an evaluation requirement.
    pub fn with_eval(self, req: EvalRequirement) -> (a: Atom)
        ensures
            a.eval@ == self.eval@.push(req),
            a.shapes == self.shapes,
            a.hcp == self.hcp,
            a.cards == self.cards,
    {
        let mut a = self;
        a.eval.push(req);
        a
    }

    /// Cheap unsatisfiability checks: empty shape set, empty or infeasible HCP range for the
    /// shapes (start above `shapes.max_hcp()` or end below `shapes.min_hcp()`), empty count or
    /// metric ranges.
    pub fn is_trivially_unsat(&self) -> (r: bool)
        ensures
            r == trivially_unsat(*self),
    {
        if self.shapes.is_empty() {
            return true;
        }
        match range_bounds(&self.hcp) {
            None => {
                return true;
            },
            Some((lo, hi)) => {
                let mx = self.shapes.max_hcp();
                let mn = self.shapes.min_hcp();
                if lo > mx || hi < mn {
                    return true;
                }
                proof {
                    let jx = choose|j: int|
                        self.shapes@.contains(j) && crate::shape_set::hcp_bound(crate::shape::shape_at(j), true) == mx;
                    let jn = choose|j: int|
                        self.shapes@.contains(j) && crate::shape_set::hcp_bound(crate::shape::shape_at(j), false) == mn;
                    assert(in_range(self.hcp, lo as int));
                }
            },
        }
        let mut i: usize = 0;
        while i < self.cards.len()
            invariant
                i <= self.cards.len(),
                forall|k: int| 0 <= k < i ==> range_nonempty((#[trigger] self.cards@[k]).count),
            decreases self.cards.len() - i,
        {
            if range_bounds(&self.cards[i].count).is_none() {
                return true;
            }
            i = i + 1;
        }
        let mut j: usize = 0;
        while j < self.eval.len()
            invariant
                j <= self.eval.len(),
                forall|k: int| 0 <= k < j ==> range_nonempty((#[trigger] self.eval@[k]).range),
            decreases self.eval.len() - j,
        {
            if range_bounds(&self.eval[j].range).is_none() {
                return true;
            }
            j = j + 1;
        }
        false
    }
}

/// `r` has a member.
pub open spec fn range_nonempty(r: RangeInclusive<u8>) -> bool {
    exists|x: int| in_range(r, x)
}

/// The cheap unsatisfiability test of an atom.
pub open spec fn trivially_unsat(a: Atom) -> bool {
    ||| a.shapes@ == Set::<int>::empty()
    ||| !range_nonempty(a.hcp)
    ||| forall|j: int|
        #[trigger] a.shapes@.contains(j) ==> crate::shape_set::hcp_bound(
            crate::shape::shape_at(j),
            true,
        ) < a.hcp@.start
    ||| forall|j: int|
        #[trigger] a.shapes@.contains(j) ==> a.hcp@.end < crate::shape_set::hcp_bound(
            crate::shape::shape_at(j),
            false,
        )
    ||| exists|k: int| 0 <= k < a.cards@.len() && !range_nonempty(#[trigger] a.cards@[k].count)
    ||| exists|k: int| 0 <= k < a.eval@.len() && !range_nonempty(#[trigger] a.eval@[k].range)
}

/// Card requirements in strictly increasing mask order.
pub open spec fn cards_sorted(cs: Seq<CardRequirement>) -> bool {
    forall|i: int, j: int| 0 <= i < j < cs.len() ==> (#[trigger] cs[i]).mask.value() < (
    #[trigger] cs[j]).mask.value()
}

/// Evaluation requirements in strictly increasing metric order.
pub open spec fn evals_sorted(es: Seq<EvalRequirement>) -> bool {
    forall|i: int, j: int| 0 <= i < j < es.len() ==> metric_key((#[trigger] es[i]).metric) < metric_key(
        (#[trigger] es[j]).metric,
    )
}

/// Every metric of `es` is one of the metrics of `from`.
pub open spec fn metrics_from(es: Seq<EvalRequirement>, from: Seq<EvalRequirement>) -> bool {
    forall|i: int|
        0 <= i < es.len() ==> exists|j: int| 0 <= j < from.len() && (#[trigger] es[i]).metric == (
        #[trigger] from[j]).metric
}

/// Inserts `c` into the sorted list `v`, merging it with a requirement on the same mask.
fn insert_card(v: &mut Vec<CardRequirement>, c: CardRequirement)
    requires
        cards_sorted(old(v)@),
    ensures
        cards_sorted(final(v)@),
        forall|h: Set<int>| #[trigger] cards_hold(final(v)@, h) == (cards_hold(old(v)@, h) && card_holds(c, h)),
{
    let key = c.mask.bits();
    let mut p: usize = 0;
    while p < v.len() && v[p].mask.bits() < key
        invariant
            p <= v.len(),
            forall|k: int| 0 <= k < p ==> (#[trigger] v@[k]).mask.value() < key,
            key == c.mask.value(),
        decreases v.len() - p,
    {
        p = p + 1;
    }
    let ghost old_v = v@;
    if p < v.len() && v[p].mask.bits() == key {
        let merged = CardRequirement { mask: c.mask, count: meet_range(&v[p].count, &c.count) };
        proof {
            Hand::lemma_value_eq(v@[p as int].mask, c.mask);
        }
        v.set(p, merged);
        proof {
            assert forall|h: Set<int>| cards_hold(v@, h) == (cards_hold(old_v, h) && card_holds(c, h)) by {
                if cards_hold(old_v, h) && card_holds(c, h) {
                    assert forall|i: int| 0 <= i < v@.len() implies card_holds(#[trigger] v@[i], h) by {
                        if i != p {
                            assert(card_holds(old_v[i], h));
                        }
                    }
                }
                if cards_hold(v@, h) {
                    assert(card_holds(v@[p as int], h));
                    assert forall|i: int| 0 <= i < old_v.len() implies card_holds(#[trigger] old_v[i], h) by {
                        if i != p {
                            assert(card_holds(v@[i], h));
                        }
                    }
                }
            }
        }
    } else {
        v.insert(p, c);
        proof {
            assert forall|h: Set<int>| cards_hold(v@, h) == (cards_hold(old_v, h) && card_holds(c, h)) by {
                if cards_hold(old_v, h) && card_holds(c, h) {
                    assert forall|i: int| 0 <= i < v@.len() implies card_holds(#[trigger] v@[i], h) by {
                        if i < p {
                            assert(card_holds(old_v[i], h));
                        } else if i > p {
                            assert(card_holds(old_v[i - 1], h));
                        }
                    }
                }
                if cards_hold(v@, h) {
                    assert(card_holds(v@[p as int], h));
                    assert forall|i: int| 0 <= i < old_v.len() implies card_holds(#[trigger] old_v[i], h) by {
                        if i < p {
                            assert(card_holds(v@[i], h));
                        } else {
                            assert(card_holds(v@[i + 1], h));
                        }
                    }
                }
            }
            assert forall|i: int, j: int| 0 <= i < j < v@.len() implies (#[trigger] v@[i]).mask.value()
                < (#[trigger] v@[j]).mask.value() by {
                if j < p {
                } else if i < p && j == p {
                } else if i < p {
                    assert(old_v[j - 1] == v@[j]);
                } else if i == p {
                    assert(old_v[j - 1] == v@[j]);
                    if p < old_v.len() {
                        assert(old_v[p as int].mask.value() >= key);
                        assert(old_v[p as int].mask.value() != key);
                        if j - 1 > p {
                            assert(old_v[p as int].mask.value() < old_v[j - 1].mask.value());
                        }
                    }
                } else {
                    assert(old_v[i - 1] == v@[i]);
                    assert(old_v[j - 1] == v@[j]);
                }
            }
        }
    }
}

/// Inserts `e` into the sorted list `v`, merging it with a requirement on the same metric.
fn insert_eval(v: &mut Vec<EvalRequirement>, e: EvalRequirement)
    requires
        evals_sorted(old(v)@),
    ensures
        evals_sorted(final(v)@),
        forall|h: Set<int>| #[trigger] evals_hold(final(v)@, h) == (evals_hold(old(v)@, h) && eval_holds(e, h)),
        forall|i: int|
            0 <= i < final(v)@.len() ==> (#[trigger] final(v)@[i]).metric == e.metric || exists|j: int|
                0 <= j < old(v)@.len() && final(v)@[i].metric == (#[trigger] old(v)@[j]).metric,
{
    let key = e.metric.key();
    let mut p: usize = 0;
    while p < v.len() && v[p].metric.key() < key
        invariant
            p <= v.len(),
            forall|k: int| 0 <= k < p ==> metric_key((#[trigger] v@[k]).metric) < key,
            key == metric_key(e.metric),
        decreases v.len() - p,
    {
        p = p + 1;
    }
    let ghost old_v = v@;
    if p < v.len() && v[p].metric.key() == key {
        let merged = EvalRequirement { metric: e.metric, range: meet_range(&v[p].range, &e.range) };
        proof {
            lemma_metric_key(v@[p as int].metric, e.metric);
        }
        v.set(p, merged);
        proof {
            assert forall|h: Set<int>| evals_hold(v@, h) == (evals_hold(old_v, h) && eval_holds(e, h)) by {
                if evals_hold(old_v, h) && eval_holds(e, h) {
                    assert forall|i: int| 0 <= i < v@.len() implies eval_holds(#[trigger] v@[i], h) by {
                        if i != p {
                            assert(eval_holds(old_v[i], h));
                        }
                    }
                }
                if evals_hold(v@, h) {
                    assert(eval_holds(v@[p as int], h));
                    assert forall|i: int| 0 <= i < old_v.len() implies eval_holds(#[trigger] old_v[i], h) by {
                        if i != p {
                            assert(eval_holds(v@[i], h));
                        }
                    }
                }
            }
            assert forall|i: int| 0 <= i < v@.len() implies (#[trigger] v@[i]).metric == e.metric
                || exists|j: int| 0 <= j < old_v.len() && v@[i].metric == (#[trigger] old_v[j]).metric by {
                if i != p {
                    assert(v@[i].metric == old_v[i].metric);
                }
            }
        }
    } else {
        v.insert(p, e);
        proof {
            assert forall|h: Set<int>| evals_hold(v@, h) == (evals_hold(old_v, h) && eval_holds(e, h)) by {
                if evals_hold(old_v, h) && eval_holds(e, h) {
                    assert forall|i: int| 0 <= i < v@.len() implies eval_holds(#[trigger] v@[i], h) by {
                        if i < p {
                            assert(eval_holds(old_v[i], h));
                        } else if i > p {
                            assert(eval_holds(old_v[i - 1], h));
                        }
                    }
                }
                if evals_hold(v@, h) {
                    assert(eval_holds(v@[p as int], h));
                    assert forall|i: int| 0 <= i < old_v.len() implies eval_holds(#[trigger] old_v[i], h) by {
                        if i < p {
                            assert(eval_holds(v@[i], h));
                        } else {
                            assert(eval_holds(v@[i + 1], h));
                        }
                    }
                }
            }
            assert forall|i: int, j: int| 0 <= i < j < v@.len() implies metric_key(
                (#[trigger] v@[i]).metric,
            ) < metric_key((#[trigger] v@[j]).metric) by {
                if j < p {
                } else if i < p && j == p {
                } else if i < p {
                    assert(old_v[j - 1] == v@[j]);
                } else if i == p {
                    assert(old_v[j - 1] == v@[j]);
                    if p < old_v.len() {
                        if j - 1 > p {
                            assert(metric_key(old_v[p as int].metric) < metric_key(old_v[j - 1].metric));
                        }
                    }
                } else {
                    assert(old_v[i - 1] == v@[i]);
                    assert(old_v[j - 1] == v@[j]);
                }
            }
            assert forall|i: int| 0 <= i < v@.len() implies (#[trigger] v@[i]).metric == e.metric
                || exists|j: int| 0 <= j < old_v.len() && v@[i].metric == (#[trigger] old_v[j]).metric by {
                if i < p {
                    assert(v@[i].metric == old_v[i].metric);
                } else if i > p {
                    assert(v@[i].metric == old_v[i - 1].metric);
                }
            }
        }
    }
}

impl Atom {
    /// Sorts and merges the literal lists and clamps every range to its bounds (`0..=37` for
    /// HCP, `0..=|mask|` for card counts, `0..=max` for metrics).
    pub fn normalize(&mut self)
        ensures
            final(self).shapes == old(self).shapes,
            forall|x: int| in_range(final(self).hcp, x) == (in_range(old(self).hcp, x) && x <= 37),
            cards_sorted(final(self).cards@),
            evals_sorted(final(self).eval@),
            metrics_from(final(self).eval@, old(self).eval@),
            forall|h: Set<int>|
                in_domain(h, old(self).eval@) ==> atom_holds(*final(self), h) == atom_holds(
                    *old(self),
                    h,
                ),
    {
        let ghost orig = *self;
        let mut cards: Vec<CardRequirement> = Vec::new();
        let mut i: usize = 0;
        while i < self.cards.len()
            invariant
                i <= self.cards.len(),
                *self == orig,
                cards_sorted(cards@),
                forall|h: Set<int>| cards_hold(cards@, h) == cards_hold(self.cards@.take(i as int), h),
            decreases self.cards.len() - i,
        {
            let m = self.cards[i].mask;
            let n = m.len();
            let clamped = CardRequirement { mask: m, count: clamp_range(&self.cards[i].count, n) };
            proof {
                use_type_invariant(m);
                m.lemma_inv();
                assert forall|h: Set<int>| card_holds(clamped, h) == card_holds(self.cards@[i as int], h) by {
                    vstd::set_lib::lemma_len_intersect(m@, h);
                    assert(h.intersect(m@) =~= m@.intersect(h));
                }
            }
            let ghost before = cards@;
            insert_card(&mut cards, clamped);
            proof {
                assert forall|h: Set<int>| cards_hold(cards@, h) == cards_hold(self.cards@.take(i + 1), h) by {
                    assert(cards_hold(cards@, h) == (cards_hold(before, h) && card_holds(clamped, h)));
                    assert(cards_hold(before, h) == cards_hold(self.cards@.take(i as int), h));
                    assert(card_holds(clamped, h) == card_holds(self.cards@[i as int], h));
                    let t = self.cards@.take(i + 1);
                    assert(t.take(i as int) =~= self.cards@.take(i as int));
                    if cards_hold(t, h) {
                        assert forall|k: int| 0 <= k < i implies card_holds(#[trigger] self.cards@.take(i as int)[k], h) by {
                            assert(card_holds(t[k], h));
                        }
                        assert(card_holds(t[i as int], h));
                    }
                    if cards_hold(self.cards@.take(i as int), h) && card_holds(self.cards@[i as int], h) {
                        assert forall|k: int| 0 <= k < t.len() implies card_holds(#[trigger] t[k], h) by {
                            if k < i {
                                assert(card_holds(self.cards@.take(i as int)[k], h));
                            }
                        }
                    }
                }
            }
            i = i + 1;
        }
        let mut evals: Vec<EvalRequirement> = Vec::new();
        let mut j: usize = 0;
        while j < self.eval.len()
            invariant
                j <= self.eval.len(),
                *self == orig,
                evals_sorted(evals@),
                metrics_from(evals@, self.eval@),
                forall|h: Set<int>|
                    in_domain(h, self.eval@) ==> evals_hold(evals@, h) == evals_hold(
                        self.eval@.take(j as int),
                        h,
                    ),
            decreases self.eval.len() - j,
        {
            let metric = self.eval[j].metric;
            let clamped = EvalRequirement { metric, range: clamp_range(&self.eval[j].range, metric.max()) };
            let ghost before = evals@;
            insert_eval(&mut evals, clamped);
            proof {
                assert forall|h: Set<int>| in_domain(h, self.eval@) implies evals_hold(evals@, h)
                    == evals_hold(self.eval@.take(j + 1), h) by {
                    assert(metric_value(self.eval@[j as int].metric, h) <= metric_max(self.eval@[j as int].metric));
                    assert(eval_holds(clamped, h) == eval_holds(self.eval@[j as int], h));
                    let t = self.eval@.take(j + 1);
                    if evals_hold(t, h) {
                        assert forall|k: int| 0 <= k < j implies eval_holds(#[trigger] self.eval@.take(j as int)[k], h) by {
                            assert(eval_holds(t[k], h));
                        }
                        assert(eval_holds(t[j as int], h));
                    }
                    if evals_hold(self.eval@.take(j as int), h) && eval_holds(self.eval@[j as int], h) {
                        assert forall|k: int| 0 <= k < t.len() implies eval_holds(#[trigger] t[k], h) by {
                            if k < j {
                                assert(eval_holds(self.eval@.take(j as int)[k], h));
                            }
                        }
                    }
                }
                assert forall|k: int| 0 <= k < evals@.len() implies exists|q: int|
                    0 <= q < self.eval@.len() && (#[trigger] evals@[k]).metric == (#[trigger] self.eval@[q]).metric by {
                    if evals@[k].metric == clamped.metric {
                        assert(self.eval@[j as int].metric == clamped.metric);
                    } else {
                        let q = choose|q: int| 0 <= q < before.len() && evals@[k].metric == (#[trigger] before[q]).metric;
                        let q2 = choose|q2: int| 0 <= q2 < self.eval@.len() && before[q].metric == (#[trigger] self.eval@[q2]).metric;
                    }
                }
            }
            j = j + 1;
        }
        let hcp = clamp_range(&self.hcp, 37);
        proof {
            assert(self.cards@.take(self.cards.len() as int) =~= self.cards@);
            assert(self.eval@.take(self.eval.len() as int) =~= self.eval@);
        }
        self.cards = cards;
        self.eval = evals;
        self.hcp = hcp;
    }

    /// Conjunction: `shapes ∩`, `hcp ∩`, and the literal lists merged by key.
    pub fn intersect(&self, other: &Atom) -> (a: Atom)
        ensures
            a.shapes@ == self.shapes@.intersect(other.shapes@),
            cards_sorted(a.cards@),
            evals_sorted(a.eval@),
            metrics_from(a.eval@, self.eval@ + other.eval@),
            forall|h: Set<int>|
                in_domain(h, self.eval@) && in_domain(h, other.eval@) ==> atom_holds(a, h) == (
                atom_holds(*self, h) && atom_holds(*other, h)),
    {
        let mut cards = copy_cards(&self.cards);
        let mut more_cards = copy_cards(&other.cards);
        let ghost c1 = cards@;
        let ghost c2 = more_cards@;
        cards.append(&mut more_cards);
        let mut evals = copy_evals(&self.eval);
        let mut more_evals = copy_evals(&other.eval);
        let ghost e1 = evals@;
        let ghost e2 = more_evals@;
        evals.append(&mut more_evals);
        let mut a = Atom {
            shapes: self.shapes.intersect(other.shapes),
            hcp: meet_range(&self.hcp, &other.hcp),
            cards,
            eval: evals,
        };
        let ghost before = a;
        proof {
            assert forall|h: Set<int>| cards_hold(before.cards@, h) == (cards_hold(self.cards@, h)
                && cards_hold(other.cards@, h)) by {
                if cards_hold(before.cards@, h) {
                    assert forall|i: int| 0 <= i < self.cards@.len() implies card_holds(#[trigger] self.cards@[i], h) by {
                        assert(card_holds(before.cards@[i], h));
                    }
                    assert forall|i: int| 0 <= i < other.cards@.len() implies card_holds(#[trigger] other.cards@[i], h) by {
                        assert(card_holds(before.cards@[c1.len() + i], h));
                    }
                }
                if cards_hold(self.cards@, h) && cards_hold(other.cards@, h) {
                    assert forall|i: int| 0 <= i < before.cards@.len() implies card_holds(#[trigger] before.cards@[i], h) by {
                        if i < c1.len() {
                            assert(card_holds(self.cards@[i], h));
                        } else {
                            assert(card_holds(other.cards@[i - c1.len()], h));
                        }
                    }
                }
            }
            assert forall|h: Set<int>| evals_hold(before.eval@, h) == (evals_hold(self.eval@, h)
                && evals_hold(other.eval@, h)) by {
                if evals_hold(before.eval@, h) {
                    assert forall|i: int| 0 <= i < self.eval@.len() implies eval_holds(#[trigger] self.eval@[i], h) by {
                        assert(eval_holds(before.eval@[i], h));
                    }
                    assert forall|i: int| 0 <= i < other.eval@.len() implies eval_holds(#[trigger] other.eval@[i], h) by {
                        assert(eval_holds(before.eval@[e1.len() + i], h));
                    }
                }
                if evals_hold(self.eval@, h) && evals_hold(other.eval@, h) {
                    assert forall|i: int| 0 <= i < before.eval@.len() implies eval_holds(#[trigger] before.eval@[i], h) by {
                        if i < e1.len() {
                            assert(eval_holds(self.eval@[i], h));
                        } else {
                            assert(eval_holds(other.eval@[i - e1.len()], h));
                        }
                    }
                }
            }
            assert forall|h: Set<int>| in_domain(h, self.eval@) && in_domain(h, other.eval@) implies in_domain(h, before.eval@) by {
                assert forall|i: int| 0 <= i < before.eval@.len() implies metric_value((#[trigger] before.eval@[i]).metric, h) <= metric_max(before.eval@[i].metric) by {
                    if i < e1.len() {
                        assert(before.eval@[i].metric == self.eval@[i].metric);
                    } else {
                        assert(before.eval@[i].metric == other.eval@[i - e1.len()].metric);
                    }
                }
            }
        }
        a.normalize();
        proof {
            let both = self.eval@ + other.eval@;
            assert forall|i: int| 0 <= i < a.eval@.len() implies exists|j: int|
                0 <= j < both.len() && (#[trigger] a.eval@[i]).metric == (#[trigger] both[j]).metric by {
                let j = choose|j: int| 0 <= j < before.eval@.len() && a.eval@[i].metric == (#[trigger] before.eval@[j]).metric;
                if j < e1.len() {
                    assert(both[j] == self.eval@[j]);
                } else {
                    assert(both[j] == other.eval@[j - e1.len()]);
                }
            }
        }
        a
    }
}

/// The number of literals of `a`: its shapes, its HCP range, and its card and evaluation
/// requirements.
pub open spec fn num_lits(a: Atom) -> int {
    2 + a.cards@.len() as int + a.eval@.len() as int
}

/// Literal `t` of `a` holds for `h`.
pub open spec fn lit_holds(a: Atom, h: Set<int>, t: int) -> bool {
    let nc = a.cards@.len() as int;
    if t == 0 {
        a.shapes@.contains(shape_idx(hand_lens(h)))
    } else if t == 1 {
        in_range(a.hcp, hand_hcp(h))
    } else if t < 2 + nc {
        card_holds(a.cards@[t - 2], h)
    } else {
        eval_holds(a.eval@[t - 2 - nc], h)
    }
}

/// The literals of `a` before `t` hold for `h`.
pub open spec fn prefix_holds(a: Atom, h: Set<int>, t: int) -> bool {
    forall|u: int| 0 <= u < t ==> #[trigger] lit_holds(a, h, u)
}

/// The atoms of `r` are pairwise disjoint on `h`.
pub open spec fn disjoint_on(r: Seq<Atom>, h: Set<int>) -> bool {
    forall|k1: int, k2: int|
        0 <= k1 < k2 < r.len() ==> !(atom_holds(#[trigger] r[k1], h) && atom_holds(#[trigger] r[k2], h))
}

/// Some atom of `r` holds for `h`.
pub open spec fn some_holds(r: Seq<Atom>, h: Set<int>) -> bool {
    exists|k: int| 0 <= k < r.len() && atom_holds(#[trigger] r[k], h)
}

/// An atom holds exactly when all its literals do.
proof fn lemma_prefix_all(a: Atom, h: Set<int>)
    ensures
        prefix_holds(a, h, num_lits(a)) == atom_holds(a, h),
{
    let nc = a.cards@.len() as int;
    let ne = a.eval@.len() as int;
    if atom_holds(a, h) {
        assert forall|u: int| 0 <= u < num_lits(a) implies #[trigger] lit_holds(a, h, u) by {
            if 2 <= u < 2 + nc {
                assert(card_holds(a.cards@[u - 2], h));
            } else if u >= 2 + nc {
                assert(eval_holds(a.eval@[u - 2 - nc], h));
            }
        }
    }
    if prefix_holds(a, h, num_lits(a)) {
        assert(lit_holds(a, h, 0));
        assert(lit_holds(a, h, 1));
        assert forall|i: int| 0 <= i < nc implies card_holds(#[trigger] a.cards@[i], h) by {
            assert(lit_holds(a, h, i + 2));
        }
        assert forall|i: int| 0 <= i < ne implies eval_holds(#[trigger] a.eval@[i], h) by {
            assert(lit_holds(a, h, i + 2 + nc));
        }
    }
}

/// Appending the atoms for literal `t` keeps the exclusive-chain invariant.
proof fn lemma_chain_step(a: Atom, old_r: Seq<Atom>, new_r: Seq<Atom>, t: int, h: Set<int>)
    requires
        0 <= t,
        some_holds(old_r, h) == !prefix_holds(a, h, t),
        disjoint_on(old_r, h),
        disjoint_on(new_r, h),
        forall|k: int| 0 <= k < new_r.len() && atom_holds(#[trigger] new_r[k], h) ==> prefix_holds(a, h, t) && !lit_holds(a, h, t),
        prefix_holds(a, h, t) && !lit_holds(a, h, t) ==> some_holds(new_r, h),
    ensures
        some_holds(old_r + new_r, h) == !prefix_holds(a, h, t + 1),
        disjoint_on(old_r + new_r, h),
{
    let r = old_r + new_r;
    let n = old_r.len();
    if some_holds(r, h) {
        let k = choose|k: int| 0 <= k < r.len() && atom_holds(#[trigger] r[k], h);
        if k < n {
            assert(atom_holds(old_r[k], h));
        } else {
            assert(atom_holds(new_r[k - n], h));
        }
    }
    if !prefix_holds(a, h, t + 1) {
        if prefix_holds(a, h, t) {
            assert(!lit_holds(a, h, t));
            let k = choose|k: int| 0 <= k < new_r.len() && atom_holds(#[trigger] new_r[k], h);
            assert(r[n + k] == new_r[k]);
        } else {
            let k = choose|k: int| 0 <= k < old_r.len() && atom_holds(#[trigger] old_r[k], h);
            assert(r[k] == old_r[k]);
        }
    }
    assert forall|k1: int, k2: int| 0 <= k1 < k2 < r.len() implies !(atom_holds(#[trigger] r[k1], h)
        && atom_holds(#[trigger] r[k2], h)) by {
        if k2 < n {
            assert(r[k1] == old_r[k1] && r[k2] == old_r[k2]);
        } else if k1 < n {
            if atom_holds(r[k1], h) && atom_holds(r[k2], h) {
                assert(r[k1] == old_r[k1]);
                assert(r[k2] == new_r[k2 - n]);
                assert(some_holds(old_r, h));
            }
        } else {
            assert(r[k1] == new_r[k1 - n] && r[k2] == new_r[k2 - n]);
        }
    }
}

/// The parts of `0..=max` outside `r`: at most two ranges, disjoint, covering exactly the
/// values of `0..=max` that are not in `r`.
fn complement_pieces(r: &RangeInclusive<u8>, max: u8) -> (v: Vec<RangeInclusive<u8>>)
    ensures
        v.len() <= 2,
        forall|x: int| 0 <= x <= max ==> (exists|k: int| 0 <= k < v.len() && #[trigger] in_range(v[k], x)) == !in_range(*r, x),
        forall|k: int, x: int| 0 <= k < v.len() && #[trigger] in_range(v[k], x) ==> 0 <= x <= max && !in_range(*r, x),
        forall|k1: int, k2: int, x: int| 0 <= k1 < k2 < v.len() ==> !(#[trigger] in_range(v[k1], x) && #[trigger] in_range(v[k2], x)),
{
    let mut v: Vec<RangeInclusive<u8>> = Vec::new();
    match range_bounds(r) {
        None => {
            v.push(make_range(0, max as i16));
            proof {
                assert forall|x: int| 0 <= x <= max implies (exists|k: int| 0 <= k < v.len() && #[trigger] in_range(v[k], x)) == !in_range(*r, x) by {
                    assert(in_range(v[0], x));
                }
            }
        },
        Some((lo, hi)) => {
            let lower = make_range(0, if lo > max {
                max as i16
            } else {
                lo as i16 - 1
            });
            let upper = make_range(hi as i16 + 1, max as i16);
            if lo > 0 {
                v.push(lower);
            }
            if hi < max {
                v.push(upper);
            }
            proof {
                if lo > 0 {
                    assert(v[0] == lower);
                }
                if hi < max {
                    assert(v[v.len() - 1] == upper);
                }
            }
            proof {
                assert forall|x: int| 0 <= x <= max implies (exists|k: int| 0 <= k < v.len() && #[trigger] in_range(v[k], x)) == !in_range(*r, x) by {
                    if !in_range(*r, x) {
                        if x < lo {
                            assert(in_range(v[0], x));
                        } else {
                            assert(in_range(v[v.len() - 1], x));
                        }
                    }
                }
                assert forall|k: int, x: int| 0 <= k < v.len() && #[trigger] in_range(v[k], x) implies 0 <= x <= max && !in_range(*r, x) by {
                    if lo > 0 && k == 0 {
                        assert(in_range(lower, x));
                        assert(x < lo);
                    } else {
                        assert(v[k] == upper);
                        assert(in_range(upper, x));
                        assert(x > hi);
                    }
                }
            }
        },
    }
    v
}

impl Atom {
    /// Negation as an exclusive chain of pairwise-disjoint atoms:
    /// `¬(L1 ∧ … ∧ Ln) = ⋁_j (L1 ∧ … ∧ L(j−1) ∧ ¬Lj)`.
    ///
    /// `¬(shape ∈ S)` is the complement set; `¬(x ∈ [lo, hi])` splits into `[0, lo−1]` and
    /// `[hi+1, max]`. At most `3 + 2·(|cards| + |eval|)` atoms result.
    pub fn negate(&self) -> (r: Vec<Atom>)
        ensures
            r.len() <= 3 + 2 * (self.cards.len() + self.eval.len()),
            forall|h: Set<int>| in_domain(h, self.eval@) ==> (some_holds(r@, h) == !atom_holds(*self, h)),
            forall|h: Set<int>| in_domain(h, self.eval@) ==> disjoint_on(r@, h),
            forall|k: int| 0 <= k < r.len() ==> metrics_from(#[trigger] r@[k].eval@, self.eval@),
    {
        let nc = self.cards.len();
        let ne = self.eval.len();
        let mut r: Vec<Atom> = Vec::new();
        // The shapes.
        let mut first = Atom::any();
        first.shapes = self.shapes.complement();
        r.push(first);
        proof {
            assert forall|h: Set<int>| in_domain(h, self.eval@) implies some_holds(r@, h) == !prefix_holds(*self, h, 1) && disjoint_on(r@, h) by {
                crate::shape::lemma_shape_idx_range(hand_lens(h));
                if !prefix_holds(*self, h, 1) {
                    assert(!lit_holds(*self, h, 0));
                    assert(atom_holds(r@[0], h));
                }
                if some_holds(r@, h) {
                    assert(atom_holds(r@[0], h));
                    if prefix_holds(*self, h, 1) {
                        assert(lit_holds(*self, h, 0));
                    }
                }
            }
        }
        // The HCP range.
        let hp = complement_pieces(&self.hcp, 37);
        let mut new_r: Vec<Atom> = Vec::new();
        let mut q: usize = 0;
        while q < hp.len()
            invariant
                q <= hp.len(),
                hp.len() <= 2,
                new_r.len() == q,
                forall|k: int| 0 <= k < q ==> (#[trigger] new_r@[k]).shapes == self.shapes && new_r@[k].cards@.len() == 0 && new_r@[k].eval@.len() == 0 && forall|x: int| in_range(new_r@[k].hcp, x) == in_range(hp@[k], x),
            decreases hp.len() - q,
        {
            let mut at = Atom::any();
            at.shapes = self.shapes;
            at.hcp = copy_range(&hp[q]);
            new_r.push(at);
            q = q + 1;
        }
        let ghost old_r = r@;
        proof {
            assert forall|h: Set<int>| in_domain(h, self.eval@) implies some_holds(old_r + new_r@, h) == !prefix_holds(*self, h, 2) && disjoint_on(old_r + new_r@, h) by {
                assert forall|k: int| 0 <= k < new_r@.len() && atom_holds(#[trigger] new_r@[k], h) implies prefix_holds(*self, h, 1) && !lit_holds(*self, h, 1) by {
                    assert(in_range(hp@[k], hand_hcp(h)));
                    assert(lit_holds(*self, h, 0));
                }
                if prefix_holds(*self, h, 1) && !lit_holds(*self, h, 1) {
                    assert(lit_holds(*self, h, 0));
                    let k = choose|k: int| 0 <= k < hp@.len() && #[trigger] in_range(hp@[k], hand_hcp(h));
                    assert(atom_holds(new_r@[k], h));
                }
                assert forall|k1: int, k2: int| 0 <= k1 < k2 < new_r@.len() implies !(atom_holds(#[trigger] new_r@[k1], h) && atom_holds(#[trigger] new_r@[k2], h)) by {
                    assert(!(in_range(hp@[k1], hand_hcp(h)) && in_range(hp@[k2], hand_hcp(h))));
                }
                lemma_chain_step(*self, old_r, new_r@, 1, h);
            }
        }
        let ghost added = new_r@;
        r.append(&mut new_r);
        proof {
            assert(r@ =~= old_r + added);
            assert forall|k: int| 0 <= k < r.len() implies metrics_from(#[trigger] r@[k].eval@, self.eval@) by {
                if k >= old_r.len() {
                    assert(r@[k] == added[k - old_r.len()]);
                } else {
                    assert(r@[k] == old_r[k]);
                }
            }
        }
        // The card requirements.
        let mut i: usize = 0;
        while i < nc
            invariant
                i <= nc,
                nc == self.cards.len(),
                ne == self.eval.len(),
                r.len() <= 3 + 2 * i,
                forall|h: Set<int>| in_domain(h, self.eval@) ==> (some_holds(r@, h) == !prefix_holds(*self, h, 2 + i) && disjoint_on(r@, h)),
                forall|k: int| 0 <= k < r.len() ==> metrics_from(#[trigger] r@[k].eval@, self.eval@),
            decreases nc - i,
        {
            let mask = self.cards[i].mask;
            let mlen = mask.len();
            proof {
                use_type_invariant(mask);
                mask.lemma_inv();
            }
            let pieces = complement_pieces(&self.cards[i].count, mlen);
            let mut new_r: Vec<Atom> = Vec::new();
            let mut q: usize = 0;
            while q < pieces.len()
                invariant
                    q <= pieces.len(),
                    pieces.len() <= 2,
                    i < nc,
                    nc == self.cards.len(),
                    mask == self.cards@[i as int].mask,
                    new_r.len() == q,
                    forall|k: int| 0 <= k < q ==> (#[trigger] new_r@[k]).shapes == self.shapes && new_r@[k].eval@.len() == 0 && (forall|x: int| in_range(new_r@[k].hcp, x) == in_range(self.hcp, x)) && new_r@[k].cards@.len() == i + 1 && (forall|c: int| 0 <= c < i ==> (#[trigger] new_r@[k].cards@[c]).mask == self.cards@[c].mask && forall|x: int| in_range(new_r@[k].cards@[c].count, x) == in_range(self.cards@[c].count, x)) && new_r@[k].cards@[i as int].mask == mask && forall|x: int| in_range(new_r@[k].cards@[i as int].count, x) == in_range(pieces@[k], x),
                decreases pieces.len() - q,
            {
                let mut cs = copy_cards(&self.cards);
                cs.truncate(i);
                cs.push(CardRequirement { mask, count: copy_range(&pieces[q]) });
                let at = Atom { shapes: self.shapes, hcp: copy_range(&self.hcp), cards: cs, eval: Vec::new() };
                new_r.push(at);
                q = q + 1;
            }
            let ghost old_r = r@;
            proof {
                assert forall|h: Set<int>| in_domain(h, self.eval@) implies some_holds(old_r + new_r@, h) == !prefix_holds(*self, h, 2 + i + 1) && disjoint_on(old_r + new_r@, h) by {
                    let cnt = h.intersect(mask@).len() as int;
                    vstd::set_lib::lemma_len_intersect(mask@, h);
                    assert(h.intersect(mask@) =~= mask@.intersect(h));
                    assert(0 <= cnt <= mlen);
                    assert forall|k: int| 0 <= k < new_r@.len() && atom_holds(#[trigger] new_r@[k], h) implies prefix_holds(*self, h, 2 + i) && !lit_holds(*self, h, 2 + i) by {
                        let at = new_r@[k];
                        assert(card_holds(at.cards@[i as int], h));
                        assert(in_range(pieces@[k], cnt));
                        assert forall|u: int| 0 <= u < 2 + i implies #[trigger] lit_holds(*self, h, u) by {
                            if u >= 2 {
                                assert(card_holds(at.cards@[u - 2], h));
                            }
                        }
                    }
                    if prefix_holds(*self, h, 2 + i) && !lit_holds(*self, h, 2 + i) {
                        assert(!in_range(self.cards@[i as int].count, cnt));
                        let k = choose|k: int| 0 <= k < pieces@.len() && #[trigger] in_range(pieces@[k], cnt);
                        let at = new_r@[k];
                        assert(lit_holds(*self, h, 0));
                        assert(lit_holds(*self, h, 1));
                        assert forall|c: int| 0 <= c < at.cards@.len() implies card_holds(#[trigger] at.cards@[c], h) by {
                            if c < i {
                                assert(lit_holds(*self, h, c + 2));
                            }
                        }
                        assert(atom_holds(at, h));
                    }
                    assert forall|k1: int, k2: int| 0 <= k1 < k2 < new_r@.len() implies !(atom_holds(#[trigger] new_r@[k1], h) && atom_holds(#[trigger] new_r@[k2], h)) by {
                        assert(!(in_range(pieces@[k1], cnt) && in_range(pieces@[k2], cnt)));
                        if atom_holds(new_r@[k1], h) {
                            assert(card_holds(new_r@[k1].cards@[i as int], h));
                        }
                        if atom_holds(new_r@[k2], h) {
                            assert(card_holds(new_r@[k2].cards@[i as int], h));
                        }
                    }
                    lemma_chain_step(*self, old_r, new_r@, 2 + i, h);
                }
                assert forall|k: int| 0 <= k < new_r@.len() implies metrics_from(#[trigger] new_r@[k].eval@, self.eval@) by {
                }
            }
            let ghost added = new_r@;
            r.append(&mut new_r);
            proof {
                assert(r@ =~= old_r + added);
                assert forall|k: int| 0 <= k < r.len() implies metrics_from(#[trigger] r@[k].eval@, self.eval@) by {
                    if k >= old_r.len() {
                        assert(r@[k] == added[k - old_r.len()]);
                        assert(r@[k].eval@.len() == 0);
                    } else {
                        assert(r@[k] == old_r[k]);
                    }
                }
            }
            i = i + 1;
        }
        // The evaluation requirements.
        let mut j: usize = 0;
        while j < ne
            invariant
                j <= ne,
                nc == self.cards.len(),
                ne == self.eval.len(),
                r.len() <= 3 + 2 * (nc + j),
                forall|h: Set<int>| in_domain(h, self.eval@) ==> (some_holds(r@, h) == !prefix_holds(*self, h, 2 + nc + j) && disjoint_on(r@, h)),
                forall|k: int| 0 <= k < r.len() ==> metrics_from(#[trigger] r@[k].eval@, self.eval@),
            decreases ne - j,
        {
            let metric = self.eval[j].metric;
            let pieces = complement_pieces(&self.eval[j].range, metric.max());
            let mut new_r: Vec<Atom> = Vec::new();
            let mut q: usize = 0;
            while q < pieces.len()
                invariant
                    q <= pieces.len(),
                    pieces.len() <= 2,
                    j < ne,
                    ne == self.eval.len(),
                    metric == self.eval@[j as int].metric,
                    new_r.len() == q,
                    forall|k: int| 0 <= k < q ==> (#[trigger] new_r@[k]).shapes == self.shapes && (forall|x: int| in_range(new_r@[k].hcp, x) == in_range(self.hcp, x)) && new_r@[k].cards@.len() == self.cards@.len() && (forall|c: int| 0 <= c < self.cards@.len() ==> (#[trigger] new_r@[k].cards@[c]).mask == self.cards@[c].mask && forall|x: int| in_range(new_r@[k].cards@[c].count, x) == in_range(self.cards@[c].count, x)) && new_r@[k].eval@.len() == j + 1 && (forall|c: int| 0 <= c < j ==> (#[trigger] new_r@[k].eval@[c]).metric == self.eval@[c].metric && forall|x: int| in_range(new_r@[k].eval@[c].range, x) == in_range(self.eval@[c].range, x)) && new_r@[k].eval@[j as int].metric == metric && forall|x: int| in_range(new_r@[k].eval@[j as int].range, x) == in_range(pieces@[k], x),
                decreases pieces.len() - q,
            {
                let mut es = copy_evals(&self.eval);
                es.truncate(j);
                es.push(EvalRequirement { metric, range: copy_range(&pieces[q]) });
                let at = Atom { shapes: self.shapes, hcp: copy_range(&self.hcp), cards: copy_cards(&self.cards), eval: es };
                new_r.push(at);
                q = q + 1;
            }
            let ghost old_r = r@;
            proof {
                assert forall|h: Set<int>| in_domain(h, self.eval@) implies some_holds(old_r + new_r@, h) == !prefix_holds(*self, h, 2 + nc + j + 1) && disjoint_on(old_r + new_r@, h) by {
                    let v = metric_value(metric, h);
                    assert(metric_value(self.eval@[j as int].metric, h) <= metric_max(self.eval@[j as int].metric));
                    assert(0 <= v) by {
                        crate::metrics::lemma_metric_nonneg(h);
                    }
                    assert forall|k: int| 0 <= k < new_r@.len() && atom_holds(#[trigger] new_r@[k], h) implies prefix_holds(*self, h, 2 + nc + j) && !lit_holds(*self, h, 2 + nc + j) by {
                        let at = new_r@[k];
                        assert(eval_holds(at.eval@[j as int], h));
                        assert(in_range(pieces@[k], v));
                        assert forall|u: int| 0 <= u < 2 + nc + j implies #[trigger] lit_holds(*self, h, u) by {
                            if 2 <= u < 2 + nc {
                                assert(card_holds(at.cards@[u - 2], h));
                            } else if u >= 2 + nc {
                                assert(eval_holds(at.eval@[u - 2 - nc], h));
                            }
                        }
                    }
                    if prefix_holds(*self, h, 2 + nc + j) && !lit_holds(*self, h, 2 + nc + j) {
                        assert(!in_range(self.eval@[j as int].range, v));
                        let k = choose|k: int| 0 <= k < pieces@.len() && #[trigger] in_range(pieces@[k], v);
                        let at = new_r@[k];
                        assert(lit_holds(*self, h, 0));
                        assert(lit_holds(*self, h, 1));
                        assert forall|c: int| 0 <= c < at.cards@.len() implies card_holds(#[trigger] at.cards@[c], h) by {
                            assert(lit_holds(*self, h, c + 2));
                        }
                        assert forall|c: int| 0 <= c < at.eval@.len() implies eval_holds(#[trigger] at.eval@[c], h) by {
                            if c < j {
                                assert(lit_holds(*self, h, c + 2 + nc));
                            }
                        }
                        assert(atom_holds(at, h));
                    }
                    assert forall|k1: int, k2: int| 0 <= k1 < k2 < new_r@.len() implies !(atom_holds(#[trigger] new_r@[k1], h) && atom_holds(#[trigger] new_r@[k2], h)) by {
                        assert(!(in_range(pieces@[k1], v) && in_range(pieces@[k2], v)));
                        if atom_holds(new_r@[k1], h) {
                            assert(eval_holds(new_r@[k1].eval@[j as int], h));
                        }
                        if atom_holds(new_r@[k2], h) {
                            assert(eval_holds(new_r@[k2].eval@[j as int], h));
                        }
                    }
                    lemma_chain_step(*self, old_r, new_r@, 2 + nc + j, h);
                }
                assert forall|k: int| 0 <= k < new_r@.len() implies metrics_from(#[trigger] new_r@[k].eval@, self.eval@) by {
                    let at = new_r@[k];
                    assert forall|c: int| 0 <= c < at.eval@.len() implies exists|q2: int| 0 <= q2 < self.eval@.len() && (#[trigger] at.eval@[c]).metric == (#[trigger] self.eval@[q2]).metric by {
                        if c < j {
                            assert(at.eval@[c].metric == self.eval@[c].metric);
                        } else {
                            assert(at.eval@[c].metric == self.eval@[j as int].metric);
                        }
                    }
                }
            }
            let ghost added = new_r@;
            r.append(&mut new_r);
            proof {
                assert(r@ =~= old_r + added);
                assert forall|k: int| 0 <= k < r.len() implies metrics_from(#[trigger] r@[k].eval@, self.eval@) by {
                    if k >= old_r.len() {
                        assert(r@[k] == added[k - old_r.len()]);
                    } else {
                        assert(r@[k] == old_r[k]);
                    }
                }
            }
            j = j + 1;
        }
        proof {
            assert forall|h: Set<int>| in_domain(h, self.eval@) implies some_holds(r@, h) == !atom_holds(*self, h) by {
                lemma_prefix_all(*self, h);
            }
        }
        r
    }
}

} // verus!
