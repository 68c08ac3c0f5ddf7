//! Boolean combinations of atoms, and their disjunctive normal form.

use vstd::prelude::*;
use crate::atom::{atom_holds, in_domain, Atom};
use crate::hand::Hand;

verus! {

/// A named predicate that cannot be sampled directly.
///
/// The predicate itself lives with the caller, who evaluates it on a hand and passes the
/// result in at position `id` of the `custom` slice of [`HandConstraint::satisfies`].
#[derive(Clone, PartialEq, Eq, Debug)]
pub struct CustomPred {
    /// Diagnostic name.
    pub name: String,
    /// Position of this predicate's value among the caller's custom results.
    pub id: usize,
}

/// A constraint on a 13-card hand. Copies are made with [`HandConstraint::duplicate`].
#[derive(Debug)]
pub enum HandConstraint {
    /// A conjunction of literals.
    Atom(Atom),
    /// Disjunction.
    Or(Vec<HandConstraint>),
    /// Conjunction.
    And(Vec<HandConstraint>),
    /// Negation.
    Not(Box<HandConstraint>),
    /// An opaque predicate; makes the constraint non-samplable (rejection only).
    Custom(CustomPred),
}

/// The value of the custom predicate `p` given the caller's results `cv`.
pub open spec fn custom_value(p: CustomPred, cv: Seq<bool>) -> bool {
    p.id < cv.len() && cv[p.id as int]
}

/// Whether the card set `h` satisfies `c`, custom predicates taking their values from `cv`.
pub open spec fn holds(c: HandConstraint, h: Set<int>, cv: Seq<bool>) -> bool
    decreases c,
{
    match c {
        HandConstraint::Atom(a) => atom_holds(a, h),
        HandConstraint::Or(xs) => any_holds(xs@, h, cv),
        HandConstraint::And(xs) => all_hold(xs@, h, cv),
        HandConstraint::Not(x) => !holds(*x, h, cv),
        HandConstraint::Custom(p) => custom_value(p, cv),
    }
}

/// Every constraint of `xs` holds.
pub open spec fn all_hold(xs: Seq<HandConstraint>, h: Set<int>, cv: Seq<bool>) -> bool
    decreases xs,
{
    if xs.len() == 0 {
        true
    } else {
        all_hold(xs.drop_last(), h, cv) && holds(xs.last(), h, cv)
    }
}

/// Some constraint of `xs` holds.
pub open spec fn any_holds(xs: Seq<HandConstraint>, h: Set<int>, cv: Seq<bool>) -> bool
    decreases xs,
{
    if xs.len() == 0 {
        false
    } else {
        any_holds(xs.drop_last(), h, cv) || holds(xs.last(), h, cv)
    }
}

/// No custom predicate occurs in `c`.
pub open spec fn no_custom(c: HandConstraint) -> bool
    decreases c,
{
    match c {
        HandConstraint::Atom(_) => true,
        HandConstraint::Or(xs) => none_custom(xs@),
        HandConstraint::And(xs) => none_custom(xs@),
        HandConstraint::Not(x) => no_custom(*x),
        HandConstraint::Custom(_) => false,
    }
}

/// No custom predicate occurs in any constraint of `xs`.
pub open spec fn none_custom(xs: Seq<HandConstraint>) -> bool
    decreases xs,
{
    if xs.len() == 0 {
        true
    } else {
        none_custom(xs.drop_last()) && no_custom(xs.last())
    }
}

/// The hands the laws of `c` speak of: 13-card hands on which every metric that an atom of
/// `c` constrains lies within its bounds.
pub open spec fn bounded(c: HandConstraint, h: Set<int>) -> bool
    decreases c,
{
    match c {
        HandConstraint::Atom(a) => in_domain(h, a.eval@),
        HandConstraint::Or(xs) => all_bounded(xs@, h),
        HandConstraint::And(xs) => all_bounded(xs@, h),
        HandConstraint::Not(x) => bounded(*x, h),
        HandConstraint::Custom(_) => in_domain(h, Seq::empty()),
    }
}

/// `h` is within the bounds of every constraint of `xs`.
pub open spec fn all_bounded(xs: Seq<HandConstraint>, h: Set<int>) -> bool
    decreases xs,
{
    if xs.len() == 0 {
        true
    } else {
        all_bounded(xs.drop_last(), h) && bounded(xs.last(), h)
    }
}

/// [`all_hold`] as a quantifier.
pub proof fn lemma_all_hold(xs: Seq<HandConstraint>, h: Set<int>, cv: Seq<bool>)
    ensures
        all_hold(xs, h, cv) == (forall|i: int| 0 <= i < xs.len() ==> #[trigger] holds(xs[i], h, cv)),
    decreases xs.len(),
{
    if xs.len() > 0 {
        let ys = xs.drop_last();
        lemma_all_hold(ys, h, cv);
        if all_hold(xs, h, cv) {
            assert forall|i: int| 0 <= i < xs.len() implies #[trigger] holds(xs[i], h, cv) by {
                if i < ys.len() {
                    assert(holds(ys[i], h, cv));
                }
            }
        }
        if forall|i: int| 0 <= i < xs.len() ==> #[trigger] holds(xs[i], h, cv) {
            assert forall|i: int| 0 <= i < ys.len() implies #[trigger] holds(ys[i], h, cv) by {
                assert(holds(xs[i], h, cv));
            }
            assert(holds(xs[xs.len() - 1], h, cv));
        }
    }
}

/// [`any_holds`] as a quantifier.
pub proof fn lemma_any_holds(xs: Seq<HandConstraint>, h: Set<int>, cv: Seq<bool>)
    ensures
        any_holds(xs, h, cv) == (exists|i: int| 0 <= i < xs.len() && #[trigger] holds(xs[i], h, cv)),
    decreases xs.len(),
{
    if xs.len() > 0 {
        let ys = xs.drop_last();
        lemma_any_holds(ys, h, cv);
        if any_holds(ys, h, cv) {
            let i = choose|i: int| 0 <= i < ys.len() && #[trigger] holds(ys[i], h, cv);
            assert(holds(xs[i], h, cv));
        }
        if holds(xs.last(), h, cv) {
            assert(holds(xs[xs.len() - 1], h, cv));
        }
        if exists|i: int| 0 <= i < xs.len() && #[trigger] holds(xs[i], h, cv) {
            let i = choose|i: int| 0 <= i < xs.len() && #[trigger] holds(xs[i], h, cv);
            if i < ys.len() {
                assert(holds(ys[i], h, cv));
            }
        }
    }
}

/// [`none_custom`] as a quantifier.
pub proof fn lemma_none_custom(xs: Seq<HandConstraint>)
    ensures
        none_custom(xs) == (forall|i: int| 0 <= i < xs.len() ==> #[trigger] no_custom(xs[i])),
    decreases xs.len(),
{
    if xs.len() > 0 {
        let ys = xs.drop_last();
        lemma_none_custom(ys);
        if none_custom(xs) {
            assert forall|i: int| 0 <= i < xs.len() implies #[trigger] no_custom(xs[i]) by {
                if i < ys.len() {
                    assert(no_custom(ys[i]));
                }
            }
        }
        if forall|i: int| 0 <= i < xs.len() ==> #[trigger] no_custom(xs[i]) {
            assert forall|i: int| 0 <= i < ys.len() implies #[trigger] no_custom(ys[i]) by {
                assert(no_custom(xs[i]));
            }
            assert(no_custom(xs[xs.len() - 1]));
        }
    }
}

/// Sequences whose members agree pointwise on `h` agree as conjunctions and disjunctions.
pub proof fn lemma_pointwise_holds(xs: Seq<HandConstraint>, ys: Seq<HandConstraint>, h: Set<int>, cv: Seq<bool>)
    requires
        xs.len() == ys.len(),
        forall|i: int| 0 <= i < xs.len() ==> holds(#[trigger] xs[i], h, cv) == holds(ys[i], h, cv),
    ensures
        all_hold(xs, h, cv) == all_hold(ys, h, cv),
        any_holds(xs, h, cv) == any_holds(ys, h, cv),
    decreases xs.len(),
{
    if xs.len() > 0 {
        let (xd, yd) = (xs.drop_last(), ys.drop_last());
        assert forall|i: int| 0 <= i < xd.len() implies holds(#[trigger] xd[i], h, cv) == holds(yd[i], h, cv) by {
            assert(xd[i] == xs[i] && yd[i] == ys[i]);
        }
        lemma_pointwise_holds(xd, yd, h, cv);
        assert(holds(xs[xs.len() - 1], h, cv) == holds(ys[ys.len() - 1], h, cv));
    }
}

/// Sequences whose members agree pointwise on the bounds of `h` agree on [`all_bounded`].
pub proof fn lemma_pointwise_bounded(xs: Seq<HandConstraint>, ys: Seq<HandConstraint>, h: Set<int>)
    requires
        xs.len() == ys.len(),
        forall|i: int| 0 <= i < xs.len() ==> bounded(#[trigger] xs[i], h) == bounded(ys[i], h),
    ensures
        all_bounded(xs, h) == all_bounded(ys, h),
    decreases xs.len(),
{
    if xs.len() > 0 {
        let (xd, yd) = (xs.drop_last(), ys.drop_last());
        assert forall|i: int| 0 <= i < xd.len() implies bounded(#[trigger] xd[i], h) == bounded(yd[i], h) by {
            assert(xd[i] == xs[i] && yd[i] == ys[i]);
        }
        lemma_pointwise_bounded(xd, yd, h);
        assert(bounded(xs[xs.len() - 1], h) == bounded(ys[ys.len() - 1], h));
    }
}

/// Sequences whose members agree pointwise on [`no_custom`] agree on [`none_custom`].
pub proof fn lemma_pointwise_custom(xs: Seq<HandConstraint>, ys: Seq<HandConstraint>)
    requires
        xs.len() == ys.len(),
        forall|i: int| 0 <= i < xs.len() ==> no_custom(#[trigger] xs[i]) == no_custom(ys[i]),
    ensures
        none_custom(xs) == none_custom(ys),
    decreases xs.len(),
{
    if xs.len() > 0 {
        let (xd, yd) = (xs.drop_last(), ys.drop_last());
        assert forall|i: int| 0 <= i < xd.len() implies no_custom(#[trigger] xd[i]) == no_custom(yd[i]) by {
            assert(xd[i] == xs[i] && yd[i] == ys[i]);
        }
        lemma_pointwise_custom(xd, yd);
        assert(no_custom(xs[xs.len() - 1]) == no_custom(ys[ys.len() - 1]));
    }
}

/// [`all_bounded`] as a quantifier.
pub proof fn lemma_all_bounded(xs: Seq<HandConstraint>, h: Set<int>)
    ensures
        all_bounded(xs, h) == (forall|i: int| 0 <= i < xs.len() ==> #[trigger] bounded(xs[i], h)),
    decreases xs.len(),
{
    if xs.len() > 0 {
        let ys = xs.drop_last();
        lemma_all_bounded(ys, h);
        if all_bounded(xs, h) {
            assert forall|i: int| 0 <= i < xs.len() implies #[trigger] bounded(xs[i], h) by {
                if i < ys.len() {
                    assert(bounded(ys[i], h));
                }
            }
        }
        if forall|i: int| 0 <= i < xs.len() ==> #[trigger] bounded(xs[i], h) {
            assert forall|i: int| 0 <= i < ys.len() implies #[trigger] bounded(ys[i], h) by {
                assert(bounded(xs[i], h));
            }
            assert(bounded(xs[xs.len() - 1], h));
        }
    }
}

/// A constraint without custom predicates does not depend on the values of custom
/// predicates.
pub proof fn lemma_holds_without_custom(c: HandConstraint, h: Set<int>, cv: Seq<bool>, dv: Seq<bool>)
    requires
        no_custom(c),
    ensures
        holds(c, h, cv) == holds(c, h, dv),
    decreases c,
{
    match c {
        HandConstraint::Atom(_) => {},
        HandConstraint::Not(x) => {
            lemma_holds_without_custom(*x, h, cv, dv);
        },
        HandConstraint::Or(xs) => {
            lemma_none_custom(xs@);
            assert forall|i: int| 0 <= i < xs@.len() implies holds(#[trigger] xs@[i], h, cv) == holds(xs@[i], h, dv) by {
                assert(decreases_to!(c => xs@[i]));
                lemma_holds_without_custom(xs@[i], h, cv, dv);
            }
            lemma_any_holds(xs@, h, cv);
            lemma_any_holds(xs@, h, dv);
        },
        HandConstraint::And(xs) => {
            lemma_none_custom(xs@);
            assert forall|i: int| 0 <= i < xs@.len() implies holds(#[trigger] xs@[i], h, cv) == holds(xs@[i], h, dv) by {
                assert(decreases_to!(c => xs@[i]));
                lemma_holds_without_custom(xs@[i], h, cv, dv);
            }
            lemma_all_hold(xs@, h, cv);
            lemma_all_hold(xs@, h, dv);
        },
        HandConstraint::Custom(_) => {},
    }
}

/// A conjunction of a concatenation is the conjunction of the parts, and likewise for
/// disjunctions.
pub proof fn lemma_concat_holds(a: Seq<HandConstraint>, b: Seq<HandConstraint>, h: Set<int>, cv: Seq<bool>)
    ensures
        all_hold(a + b, h, cv) == (all_hold(a, h, cv) && all_hold(b, h, cv)),
        any_holds(a + b, h, cv) == (any_holds(a, h, cv) || any_holds(b, h, cv)),
    decreases b.len(),
{
    if b.len() == 0 {
        assert(a + b =~= a);
    } else {
        lemma_concat_holds(a, b.drop_last(), h, cv);
        assert((a + b).drop_last() =~= a + b.drop_last());
        assert((a + b).last() == b.last());
    }
}

impl CustomPred {
    /// A copy of this predicate.
    pub fn duplicate(&self) -> (r: CustomPred)
        ensures
            r.id == self.id,
            r.name@ == self.name@,
    {
        CustomPred { name: self.name.clone(), id: self.id }
    }
}

impl HandConstraint {
    /// The unconstrained constraint.
    pub fn any() -> (c: HandConstraint)
        ensures
            c matches HandConstraint::Atom(a) && a.shapes@ == crate::shape_set::all_shapes()
                && a.cards@.len() == 0 && a.eval@.len() == 0 && forall|x: int|
                crate::range::in_range(a.hcp, x) <==> 0 <= x <= 37,
    {
        HandConstraint::Atom(Atom::any())
    }

    /// A copy of this constraint, with the same meaning.
    pub fn duplicate(&self) -> (r: HandConstraint)
        ensures
            forall|h: Set<int>, cv: Seq<bool>| holds(r, h, cv) == holds(*self, h, cv),
            forall|h: Set<int>| bounded(r, h) == bounded(*self, h),
            no_custom(r) == no_custom(*self),
        decreases self,
    {
        match self {
            HandConstraint::Atom(a) => {
                let b = a.duplicate();
                proof {
                    assert forall|h: Set<int>| in_domain(h, b.eval@) == in_domain(h, a.eval@) by {
                        if in_domain(h, a.eval@) {
                            assert forall|i: int| 0 <= i < b.eval@.len() implies crate::atom::metric_value((#[trigger] b.eval@[i]).metric, h) <= crate::atom::metric_max(b.eval@[i].metric) by {
                                assert(b.eval@[i].metric == a.eval@[i].metric);
                            }
                        }
                        if in_domain(h, b.eval@) {
                            assert forall|i: int| 0 <= i < a.eval@.len() implies crate::atom::metric_value((#[trigger] a.eval@[i]).metric, h) <= crate::atom::metric_max(a.eval@[i].metric) by {
                                assert(b.eval@[i].metric == a.eval@[i].metric);
                            }
                        }
                    }
                    let r = HandConstraint::Atom(b);
                    assert forall|h: Set<int>, cv: Seq<bool>| holds(r, h, cv) == holds(*self, h, cv) by {
                        assert(atom_holds(b, h) == atom_holds(*a, h));
                    }
                    assert forall|h: Set<int>| bounded(r, h) == bounded(*self, h) by {
                        assert(in_domain(h, b.eval@) == in_domain(h, a.eval@));
                    }
                }
                HandConstraint::Atom(b)
            },
            HandConstraint::Or(xs) => {
                let ys = copy_all(xs);
                proof {
                    assert forall|h: Set<int>, cv: Seq<bool>| #![all_triggers] any_holds(ys@, h, cv) == any_holds(xs@, h, cv) && all_hold(ys@, h, cv) == all_hold(xs@, h, cv) by {
                        lemma_pointwise_holds(xs@, ys@, h, cv);
                    }
                    assert forall|h: Set<int>| #![all_triggers] all_bounded(ys@, h) == all_bounded(xs@, h) by {
                        lemma_pointwise_bounded(xs@, ys@, h);
                    }
                    lemma_pointwise_custom(xs@, ys@);
                    assert(*self is Or);
                    assert(self->Or_0 == *xs);
                    let r = HandConstraint::Or(ys);
                    assert forall|h: Set<int>, cv: Seq<bool>| holds(r, h, cv) == holds(*self, h, cv) by {
                        lemma_pointwise_holds(xs@, ys@, h, cv);
                    }
                    assert forall|h: Set<int>| bounded(r, h) == bounded(*self, h) by {
                        lemma_pointwise_bounded(xs@, ys@, h);
                    }
                }
                HandConstraint::Or(ys)
            },
            HandConstraint::And(xs) => {
                let ys = copy_all(xs);
                proof {
                    assert forall|h: Set<int>, cv: Seq<bool>| #![all_triggers] any_holds(ys@, h, cv) == any_holds(xs@, h, cv) && all_hold(ys@, h, cv) == all_hold(xs@, h, cv) by {
                        lemma_pointwise_holds(xs@, ys@, h, cv);
                    }
                    assert forall|h: Set<int>| #![all_triggers] all_bounded(ys@, h) == all_bounded(xs@, h) by {
                        lemma_pointwise_bounded(xs@, ys@, h);
                    }
                    lemma_pointwise_custom(xs@, ys@);
                    assert(*self is And);
                    assert(self->And_0 == *xs);
                    let r = HandConstraint::And(ys);
                    assert forall|h: Set<int>, cv: Seq<bool>| holds(r, h, cv) == holds(*self, h, cv) by {
                        lemma_pointwise_holds(xs@, ys@, h, cv);
                    }
                    assert forall|h: Set<int>| bounded(r, h) == bounded(*self, h) by {
                        lemma_pointwise_bounded(xs@, ys@, h);
                    }
                }
                HandConstraint::And(ys)
            },
            HandConstraint::Not(x) => {
                let y = x.duplicate();
                let r = HandConstraint::Not(Box::new(y));
                proof {
                    assert forall|h: Set<int>, cv: Seq<bool>| holds(r, h, cv) == holds(*self, h, cv) by {
                        assert(holds(y, h, cv) == holds(**x, h, cv));
                    }
                    assert forall|h: Set<int>| bounded(r, h) == bounded(*self, h) by {
                        assert(bounded(y, h) == bounded(**x, h));
                    }
                }
                r
            },
            HandConstraint::Custom(p) => {
                let q = p.duplicate();
                let r = HandConstraint::Custom(q);
                proof {
                    assert forall|h: Set<int>, cv: Seq<bool>| holds(r, h, cv) == holds(*self, h, cv) by {
                        assert(custom_value(q, cv) == custom_value(*p, cv));
                    }
                }
                r
            },
        }
    }

    /// Evaluates the tree directly on `hand` (a 13-card hand); the value of the custom
    /// predicate with id `i` is `custom[i]` (`false` when `i` is out of range).
    #[verifier::loop_isolation(false)]
    pub fn satisfies(&self, hand: Hand, custom: &[bool]) -> (r: bool)
        requires
            crate::shape::valid13(crate::dist::hand_lens(hand@)),
        ensures
            r == holds(*self, hand@, custom@),
        decreases self,
    {
        match self {
            HandConstraint::Atom(a) => a.satisfies(hand),
            HandConstraint::Or(xs) => {
                let mut i: usize = 0;
                while i < xs.len()
                    invariant
                        i <= xs.len(),
                        crate::shape::valid13(crate::dist::hand_lens(hand@)),
                        forall|k: int| 0 <= k < i ==> !#[trigger] holds(xs@[k], hand@, custom@),
                    decreases xs.len() - i,
                {
                    proof {
                        assert(decreases_to!(*self => xs@[i as int]));
                    }
                    if xs[i].satisfies(hand, custom) {
                        proof {
                            lemma_any_holds(xs@, hand@, custom@);
                            assert(holds(xs@[i as int], hand@, custom@));
                        }
                        return true;
                    }
                    i = i + 1;
                }
                proof {
                    lemma_any_holds(xs@, hand@, custom@);
                }
                false
            },
            HandConstraint::And(xs) => {
                let mut i: usize = 0;
                while i < xs.len()
                    invariant
                        i <= xs.len(),
                        crate::shape::valid13(crate::dist::hand_lens(hand@)),
                        forall|k: int| 0 <= k < i ==> #[trigger] holds(xs@[k], hand@, custom@),
                    decreases xs.len() - i,
                {
                    proof {
                        assert(decreases_to!(*self => xs@[i as int]));
                    }
                    if !xs[i].satisfies(hand, custom) {
                        proof {
                            lemma_all_hold(xs@, hand@, custom@);
                            assert(!holds(xs@[i as int], hand@, custom@));
                        }
                        return false;
                    }
                    i = i + 1;
                }
                proof {
                    lemma_all_hold(xs@, hand@, custom@);
                }
                true
            },
            HandConstraint::Not(x) => !x.satisfies(hand, custom),
            HandConstraint::Custom(p) => p.id < custom.len() && custom[p.id],
        }
    }

    /// `false` when a [`HandConstraint::Custom`] occurs anywhere; sampling then degrades to
    /// rejection.
    #[verifier::loop_isolation(false)]
    pub fn is_samplable(&self) -> (r: bool)
        ensures
            r == no_custom(*self),
        decreases self,
    {
        match self {
            HandConstraint::Atom(_) => true,
            HandConstraint::Or(xs) | HandConstraint::And(xs) => {
                let mut i: usize = 0;
                while i < xs.len()
                    invariant
                        i <= xs.len(),
                        forall|k: int| 0 <= k < i ==> #[trigger] no_custom(xs@[k]),
                    decreases xs.len() - i,
                {
                    proof {
                        assert(decreases_to!(*self => xs@[i as int]));
                    }
                    if !xs[i].is_samplable() {
                        proof {
                            lemma_none_custom(xs@);
                            assert(!no_custom(xs@[i as int]));
                        }
                        return false;
                    }
                    i = i + 1;
                }
                proof {
                    lemma_none_custom(xs@);
                }
                true
            },
            HandConstraint::Not(x) => x.is_samplable(),
            HandConstraint::Custom(_) => false,
        }
    }

    /// `self ∧ other`, flattening nested conjunctions.
    pub fn and(self, other: HandConstraint) -> (r: HandConstraint)
        ensures
            forall|h: Set<int>, cv: Seq<bool>| holds(r, h, cv) == (holds(self, h, cv) && holds(other, h, cv)),
    {
        let ghost a = self;
        let ghost b = other;
        let mut parts: Vec<HandConstraint> = Vec::new();
        let ghost p0 = parts@;
        push_conjuncts(&mut parts, self);
        let ghost p1 = parts@;
        push_conjuncts(&mut parts, other);
        let ghost p2 = parts@;
        let r = HandConstraint::And(parts);
        proof {
            assert forall|h: Set<int>, cv: Seq<bool>| holds(r, h, cv) == (holds(a, h, cv) && holds(b, h, cv)) by {
                assert(all_hold(p0, h, cv));
                assert(all_hold(p1, h, cv) == (all_hold(p0, h, cv) && holds(a, h, cv)));
                assert(all_hold(p2, h, cv) == (all_hold(p1, h, cv) && holds(b, h, cv)));
            }
        }
        r
    }

    /// `self ∨ other`, flattening nested disjunctions.
    pub fn or(self, other: HandConstraint) -> (r: HandConstraint)
        ensures
            forall|h: Set<int>, cv: Seq<bool>| holds(r, h, cv) == (holds(self, h, cv) || holds(other, h, cv)),
    {
        let ghost a = self;
        let ghost b = other;
        let mut parts: Vec<HandConstraint> = Vec::new();
        let ghost p0 = parts@;
        push_disjuncts(&mut parts, self);
        let ghost p1 = parts@;
        push_disjuncts(&mut parts, other);
        let ghost p2 = parts@;
        let r = HandConstraint::Or(parts);
        proof {
            assert forall|h: Set<int>, cv: Seq<bool>| holds(r, h, cv) == (holds(a, h, cv) || holds(b, h, cv)) by {
                assert(!any_holds(p0, h, cv));
                assert(any_holds(p1, h, cv) == (any_holds(p0, h, cv) || holds(a, h, cv)));
                assert(any_holds(p2, h, cv) == (any_holds(p1, h, cv) || holds(b, h, cv)));
            }
        }
        r
    }

    /// `¬self`.
    pub fn not(self) -> (r: HandConstraint)
        ensures
            forall|h: Set<int>, cv: Seq<bool>| holds(r, h, cv) == !holds(self, h, cv),
    {
        HandConstraint::Not(Box::new(self))
    }
}

/// Copies of the constraints of `xs`.
fn copy_all(xs: &Vec<HandConstraint>) -> (ys: Vec<HandConstraint>)
    ensures
        ys.len() == xs.len(),
        forall|i: int, h: Set<int>, cv: Seq<bool>| 0 <= i < xs.len() ==> #[trigger] holds(ys@[i], h, cv) == holds(xs@[i], h, cv),
        forall|i: int, h: Set<int>| 0 <= i < xs.len() ==> #[trigger] bounded(ys@[i], h) == bounded(xs@[i], h),
        forall|i: int| 0 <= i < xs.len() ==> no_custom(#[trigger] ys@[i]) == no_custom(xs@[i]),
    decreases xs,
{
    let mut ys: Vec<HandConstraint> = Vec::new();
    let mut i: usize = 0;
    while i < xs.len()
        invariant
            i <= xs.len(),
            ys.len() == i,
            forall|k: int, h: Set<int>, cv: Seq<bool>| 0 <= k < i ==> #[trigger] holds(ys@[k], h, cv) == holds(xs@[k], h, cv),
            forall|k: int, h: Set<int>| 0 <= k < i ==> #[trigger] bounded(ys@[k], h) == bounded(xs@[k], h),
            forall|k: int| 0 <= k < i ==> no_custom(#[trigger] ys@[k]) == no_custom(xs@[k]),
        decreases xs.len() - i,
    {
        let y = xs[i].duplicate();
        ys.push(y);
        i = i + 1;
    }
    ys
}

/// Appends the conjuncts of `c` to `parts` (the members of a conjunction, or `c` itself).
fn push_conjuncts(parts: &mut Vec<HandConstraint>, c: HandConstraint)
    ensures
        forall|h: Set<int>, cv: Seq<bool>| #![trigger all_hold(final(parts)@, h, cv)] all_hold(final(parts)@, h, cv) == (all_hold(old(parts)@, h, cv) && holds(c, h, cv)),
{
    let ghost before = parts@;
    match c {
        HandConstraint::And(mut xs) => {
            let ghost inner = xs@;
            parts.append(&mut xs);
            proof {
                assert(parts@ =~= before + inner);
                assert forall|h: Set<int>, cv: Seq<bool>| #![all_triggers] all_hold(parts@, h, cv) == (all_hold(before, h, cv) && all_hold(inner, h, cv)) by {
                    lemma_concat_holds(before, inner, h, cv);
                }
            }
        },
        other => {
            parts.push(other);
            proof {
                assert(parts@.drop_last() =~= before);
            }
        },
    }
}

/// Appends the disjuncts of `c` to `parts` (the members of a disjunction, or `c` itself).
fn push_disjuncts(parts: &mut Vec<HandConstraint>, c: HandConstraint)
    ensures
        forall|h: Set<int>, cv: Seq<bool>| #![trigger any_holds(final(parts)@, h, cv)] any_holds(final(parts)@, h, cv) == (any_holds(old(parts)@, h, cv) || holds(c, h, cv)),
{
    let ghost before = parts@;
    match c {
        HandConstraint::Or(mut xs) => {
            let ghost inner = xs@;
            parts.append(&mut xs);
            proof {
                assert(parts@ =~= before + inner);
                assert forall|h: Set<int>, cv: Seq<bool>| #![all_triggers] any_holds(parts@, h, cv) == (any_holds(before, h, cv) || any_holds(inner, h, cv)) by {
                    lemma_concat_holds(before, inner, h, cv);
                }
            }
        },
        other => {
            parts.push(other);
            proof {
                assert(parts@.drop_last() =~= before);
            }
        },
    }
}

} // verus!
