//! Disjunctive normal form of a hand constraint.

use vstd::prelude::*;
use crate::atom::{atom_holds, in_domain, metric_max, metric_value, metrics_from, some_holds, Atom, EvalRequirement};
use crate::constraint::{
    all_bounded, bounded, custom_value, holds, lemma_all_bounded, lemma_all_hold, lemma_any_holds, CustomPred, HandConstraint,
};
use crate::dist::hand_lens;
use crate::card::Suit;
use crate::hand::Hand;
use crate::metrics::hand_hcp;
use crate::range::{in_range, make_range, range_bounds};
use crate::shape::{len_of, shape_idx};
use crate::shape_set::ShapeSet;
use core::ops::RangeInclusive;

verus! {

/// One DNF term: an exact atom plus the literals the sampler can only reject on.
#[derive(Debug)]
pub struct DnfTerm {
    /// The exactly-samplable part.
    pub atom: Atom,
    /// Custom predicates and whether each is negated.
    pub custom: Vec<(CustomPred, bool)>,
    /// A sub-constraint that was not expanded because of the term cap; checked by `satisfies`.
    pub residual: Option<HandConstraint>,
}

/// A constraint in disjunctive normal form.
#[derive(Debug)]
pub struct Dnf {
    /// The terms (a hand satisfies the constraint iff it satisfies at least one term).
    pub terms: Vec<DnfTerm>,
    /// `true` when the term cap forced part of the constraint into `residual`s: some term
    /// carries a residual.
    pub truncated: bool,
}

/// What to do when the expansion would exceed `max_terms`.
#[derive(Clone, Copy, PartialEq, Eq, Structural, Debug)]
pub enum Overflow {
    /// Move sub-constraints into `residual` (checked by rejection) until the result fits.
    Residual,
    /// Fail with [`DnfError::TooLarge`].
    Error,
}

/// Options for [`HandConstraint::to_dnf`].
#[derive(Clone, Copy, PartialEq, Eq, Structural, Debug)]
pub struct DnfOptions {
    /// Maximum number of terms (default 256).
    pub max_terms: usize,
    /// Overflow policy (default `Residual`).
    pub on_overflow: Overflow,
}

impl Default for DnfOptions {
    fn default() -> (d: DnfOptions)
        ensures
            d.max_terms == 256,
            d.on_overflow == Overflow::Residual,
    {
        DnfOptions { max_terms: 256, on_overflow: Overflow::Residual }
    }
}

/// DNF normalisation failed.
#[derive(Clone, Copy, PartialEq, Eq, Structural, Debug)]
pub enum DnfError {
    /// The expansion would exceed the term cap and the policy is [`Overflow::Error`].
    TooLarge {
        /// The number of terms the expansion had reached when it passed the cap.
        estimated: usize,
        /// The configured cap.
        max_terms: usize,
    },
}

/// The hands the DNF law of `c` speaks of: 13-card hands with at most 37 points on which
/// every metric that an atom of `c` constrains lies within its bounds.
pub open spec fn dnf_domain(c: HandConstraint, h: Set<int>) -> bool {
    &&& in_domain(h, Seq::empty())
    &&& bounded(c, h)
}

/// Every 13-card hand has at most 37 points, so on 13-card hands the domain of the DNF law
/// of `c` asks only that the metrics that `c` constrains be within their bounds.
pub proof fn lemma_thirteen_card_domain(c: HandConstraint, h: Set<int>)
    requires
        h.subset_of(crate::hand::deck()),
        h.len() == 13,
        bounded(c, h),
    ensures
        dnf_domain(c, h),
{
    crate::holding::lemma_int_range_len(52);
    vstd::set_lib::lemma_len_subset(h, crate::hand::deck());
    crate::sample::lemma_lens_total(h);
    crate::metrics::lemma_hcp_at_most_37(h);
}

/// Every atom of the terms `ts` has its metrics within their bounds on `h`.
pub open spec fn atoms_in_domain(ts: Seq<DnfTerm>, h: Set<int>) -> bool {
    forall|k: int| 0 <= k < ts.len() ==> in_domain(h, (#[trigger] ts[k]).atom.eval@)
}

/// Requirements whose metrics all occur in `fs` are within their bounds where those of `fs`
/// are.
proof fn lemma_metrics_from_domain(h: Set<int>, es: Seq<EvalRequirement>, fs: Seq<EvalRequirement>)
    requires
        metrics_from(es, fs),
        in_domain(h, fs),
    ensures
        in_domain(h, es),
{
    assert forall|i: int| 0 <= i < es.len() implies metric_value((#[trigger] es[i]).metric, h)
        <= metric_max(es[i].metric) by {
        let j = choose|j: int| 0 <= j < fs.len() && (#[trigger] es[i]).metric == (#[trigger] fs[j]).metric;
        assert(metric_value(fs[j].metric, h) <= metric_max(fs[j].metric));
    }
}

/// Two lists within their bounds make a concatenation within its bounds.
proof fn lemma_domain_concat(h: Set<int>, es: Seq<EvalRequirement>, fs: Seq<EvalRequirement>)
    requires
        in_domain(h, es),
        in_domain(h, fs),
    ensures
        in_domain(h, es + fs),
{
    assert forall|i: int| 0 <= i < (es + fs).len() implies metric_value((#[trigger] (es + fs)[i]).metric, h)
        <= metric_max((es + fs)[i].metric) by {
        if i < es.len() {
            assert((es + fs)[i] == es[i]);
        } else {
            assert((es + fs)[i] == fs[i - es.len()]);
        }
    }
}

/// The domain of a conjunction or disjunction holds of each member.
proof fn lemma_member_domain(c: HandConstraint, xs: Vec<HandConstraint>, h: Set<int>, i: int)
    requires
        members(c, xs),
        dnf_domain(c, h),
        0 <= i < xs@.len(),
    ensures
        dnf_domain(xs@[i], h),
{
    lemma_all_bounded(xs@, h);
}

/// A one-term list whose atom has no evaluation requirement is within bounds on the
/// 13-card hands with at most 37 points.
proof fn lemma_plain_atoms(v: Seq<DnfTerm>, h: Set<int>)
    requires
        in_domain(h, Seq::empty()),
        forall|k: int| 0 <= k < v.len() ==> (#[trigger] v[k]).atom.eval@.len() == 0,
    ensures
        atoms_in_domain(v, h),
{
    assert forall|k: int| 0 <= k < v.len() implies in_domain(h, (#[trigger] v[k]).atom.eval@) by {
        assert(v[k].atom.eval@.len() == 0);
    }
}

/// A count of at least one.
pub open spec fn at_least_one(n: nat) -> nat {
    if n == 0 {
        1
    } else {
        n
    }
}

/// A bound on the number of terms of the full expansion of `c` under polarity `neg`: one
/// term per atom, at most `3 + 2·(|cards| + |eval|)` per negated atom, one per custom
/// predicate, the sum over the members of a union and the product over the members of a
/// conjunction (each member counted as at least one).
pub open spec fn expansion_bound(c: HandConstraint, neg: bool) -> nat
    decreases c,
{
    match c {
        HandConstraint::Atom(a) => if neg {
            (3 + 2 * (a.cards@.len() + a.eval@.len())) as nat
        } else {
            1
        },
        HandConstraint::Custom(_) => 1,
        HandConstraint::Not(x) => expansion_bound(*x, !neg),
        HandConstraint::Or(xs) => if neg {
            bound_product(xs@, neg)
        } else {
            bound_sum(xs@, neg)
        },
        HandConstraint::And(xs) => if neg {
            bound_sum(xs@, neg)
        } else {
            bound_product(xs@, neg)
        },
    }
}

/// The sum of the bounds of the members of `xs`.
pub open spec fn bound_sum(xs: Seq<HandConstraint>, neg: bool) -> nat
    decreases xs,
{
    if xs.len() == 0 {
        0
    } else {
        bound_sum(xs.drop_last(), neg) + expansion_bound(xs.last(), neg)
    }
}

/// The product of the bounds of the members of `xs`, each counted as at least one.
pub open spec fn bound_product(xs: Seq<HandConstraint>, neg: bool) -> nat
    decreases xs,
{
    if xs.len() == 0 {
        1
    } else {
        bound_product(xs.drop_last(), neg) * at_least_one(expansion_bound(xs.last(), neg))
    }
}

/// The sum over a prefix grows by the next member and never passes the whole sum.
proof fn lemma_bound_sum(xs: Seq<HandConstraint>, neg: bool, i: int)
    requires
        0 <= i < xs.len(),
    ensures
        bound_sum(xs.take(i + 1), neg) == bound_sum(xs.take(i), neg) + expansion_bound(xs[i], neg),
        bound_sum(xs.take(i + 1), neg) <= bound_sum(xs, neg),
    decreases xs.len() - i,
{
    assert(xs.take(i + 1).drop_last() =~= xs.take(i));
    assert(xs.take(i + 1).last() == xs[i]);
    if i + 1 < xs.len() {
        lemma_bound_sum(xs, neg, i + 1);
    } else {
        assert(xs.take(i + 1) =~= xs);
    }
}

/// The product over a prefix grows by the next factor, is at least one, and never passes the
/// whole product.
proof fn lemma_bound_product(xs: Seq<HandConstraint>, neg: bool, i: int)
    requires
        0 <= i < xs.len(),
    ensures
        bound_product(xs.take(i + 1), neg) == bound_product(xs.take(i), neg) * at_least_one(expansion_bound(xs[i], neg)),
        1 <= bound_product(xs.take(i), neg),
        bound_product(xs.take(i + 1), neg) <= bound_product(xs, neg),
    decreases xs.len() - i,
{
    assert(xs.take(i + 1).drop_last() =~= xs.take(i));
    assert(xs.take(i + 1).last() == xs[i]);
    lemma_bound_product_pos(xs.take(i), neg);
    if i + 1 < xs.len() {
        lemma_bound_product(xs, neg, i + 1);
        let p = bound_product(xs.take(i + 1), neg);
        let f = at_least_one(expansion_bound(xs[i + 1], neg));
        assert(p <= p * f) by (nonlinear_arith)
            requires
                f >= 1,
        ;
    } else {
        assert(xs.take(i + 1) =~= xs);
    }
}

/// A product of counts of at least one is at least one.
proof fn lemma_bound_product_pos(xs: Seq<HandConstraint>, neg: bool)
    ensures
        1 <= bound_product(xs, neg),
    decreases xs.len(),
{
    if xs.len() > 0 {
        lemma_bound_product_pos(xs.drop_last(), neg);
        let p = bound_product(xs.drop_last(), neg);
        let f = at_least_one(expansion_bound(xs.last(), neg));
        assert(1 <= p * f) by (nonlinear_arith)
            requires
                p >= 1,
                f >= 1,
        ;
    }
}

/// The value of `c` under a polarity: `c` itself, or its negation when `neg`.
pub open spec fn signed(c: HandConstraint, neg: bool, h: Set<int>, cv: Seq<bool>) -> bool {
    holds(c, h, cv) != neg
}

/// A custom literal: the predicate, negated when the flag is set.
pub open spec fn lit_holds(l: (CustomPred, bool), cv: Seq<bool>) -> bool {
    custom_value(l.0, cv) != l.1
}

/// Every custom literal of `ls` holds.
pub open spec fn lits_hold(ls: Seq<(CustomPred, bool)>, cv: Seq<bool>) -> bool {
    forall|i: int| 0 <= i < ls.len() ==> #[trigger] lit_holds(ls[i], cv)
}

/// The residual of a term holds (an absent residual always does).
pub open spec fn residual_holds(r: Option<HandConstraint>, h: Set<int>, cv: Seq<bool>) -> bool {
    match r {
        Option::None => true,
        Option::Some(c) => holds(c, h, cv),
    }
}

/// Whether `h` satisfies the whole term `t`.
pub open spec fn term_holds(t: DnfTerm, h: Set<int>, cv: Seq<bool>) -> bool {
    &&& atom_holds(t.atom, h)
    &&& lits_hold(t.custom@, cv)
    &&& residual_holds(t.residual, h, cv)
}

/// Some term of `ts` holds.
pub open spec fn terms_hold(ts: Seq<DnfTerm>, h: Set<int>, cv: Seq<bool>) -> bool {
    exists|i: int| 0 <= i < ts.len() && #[trigger] term_holds(ts[i], h, cv)
}

/// Whether `h` satisfies the DNF.
pub open spec fn dnf_holds(d: Dnf, h: Set<int>, cv: Seq<bool>) -> bool {
    terms_hold(d.terms@, h, cv)
}

/// No term of `ts` has a residual.
pub open spec fn no_residual(ts: Seq<DnfTerm>) -> bool {
    forall|i: int| 0 <= i < ts.len() ==> (#[trigger] ts[i]).residual is None
}

/// The terms of a concatenation hold when those of either part do.
pub proof fn lemma_terms_concat(a: Seq<DnfTerm>, b: Seq<DnfTerm>, h: Set<int>, cv: Seq<bool>)
    ensures
        terms_hold(a + b, h, cv) == (terms_hold(a, h, cv) || terms_hold(b, h, cv)),
{
    let ab = a + b;
    if terms_hold(ab, h, cv) {
        let i = choose|i: int| 0 <= i < ab.len() && #[trigger] term_holds(ab[i], h, cv);
        if i < a.len() {
            assert(term_holds(a[i], h, cv));
        } else {
            assert(term_holds(b[i - a.len()], h, cv));
        }
    }
    if terms_hold(a, h, cv) {
        let i = choose|i: int| 0 <= i < a.len() && #[trigger] term_holds(a[i], h, cv);
        assert(term_holds(ab[i], h, cv));
    }
    if terms_hold(b, h, cv) {
        let i = choose|i: int| 0 <= i < b.len() && #[trigger] term_holds(b[i], h, cv);
        assert(term_holds(ab[a.len() + i], h, cv));
    }
}

/// The unconstrained atom holds on every 13-card hand with at most 37 points.
proof fn lemma_any_atom(a: Atom, h: Set<int>)
    requires
        in_domain(h, Seq::empty()),
        a.shapes@ == crate::shape_set::all_shapes(),
        forall|x: int| crate::range::in_range(a.hcp, x) <==> 0 <= x <= 37,
        a.cards@ == Seq::<crate::atom::CardRequirement>::empty(),
        a.eval@ == Seq::<crate::atom::EvalRequirement>::empty(),
    ensures
        atom_holds(a, h),
{
    crate::shape::lemma_shape_idx_range(hand_lens(h));
    assert(crate::range::in_range(a.hcp, crate::metrics::hand_hcp(h)));
}

/// Copies of the custom literals of `ls`.
fn copy_lits(ls: &Vec<(CustomPred, bool)>) -> (r: Vec<(CustomPred, bool)>)
    ensures
        r.len() == ls.len(),
        forall|i: int| 0 <= i < ls.len() ==> (#[trigger] r@[i]).0.id == ls@[i].0.id && r@[i].1 == ls@[i].1,
        forall|cv: Seq<bool>| lits_hold(r@, cv) == lits_hold(ls@, cv),
{
    let mut r: Vec<(CustomPred, bool)> = Vec::new();
    let mut i: usize = 0;
    while i < ls.len()
        invariant
            i <= ls.len(),
            r.len() == i,
            forall|k: int| 0 <= k < i ==> (#[trigger] r@[k]).0.id == ls@[k].0.id && r@[k].1 == ls@[k].1,
        decreases ls.len() - i,
    {
        let (p, n) = (&ls[i].0, ls[i].1);
        r.push((p.duplicate(), n));
        i = i + 1;
    }
    proof {
        assert forall|cv: Seq<bool>| lits_hold(r@, cv) == lits_hold(ls@, cv) by {
            if lits_hold(r@, cv) {
                assert forall|k: int| 0 <= k < ls.len() implies #[trigger] lit_holds(ls@[k], cv) by {
                    assert(lit_holds(r@[k], cv));
                }
            }
            if lits_hold(ls@, cv) {
                assert forall|k: int| 0 <= k < r.len() implies #[trigger] lit_holds(r@[k], cv) by {
                    assert(lit_holds(ls@[k], cv));
                }
            }
        }
    }
    r
}

/// A copy of a residual, with the same meaning.
fn copy_residual(r: &Option<HandConstraint>) -> (c: Option<HandConstraint>)
    ensures
        c is None <==> r is None,
        forall|h: Set<int>, cv: Seq<bool>| residual_holds(c, h, cv) == residual_holds(*r, h, cv),
{
    match r {
        Option::None => Option::None,
        Option::Some(x) => Option::Some(x.duplicate()),
    }
}

/// The term of an atom alone.
fn atom_term(a: Atom) -> (t: DnfTerm)
    ensures
        t.atom == a,
        t.residual is None,
        forall|h: Set<int>, cv: Seq<bool>| term_holds(t, h, cv) == atom_holds(a, h),
{
    DnfTerm { atom: a, custom: Vec::new(), residual: Option::None }
}

/// The term that holds on every 13-card hand with at most 37 points.
fn any_term() -> (t: DnfTerm)
    ensures
        t.residual is None,
        t.atom.eval@.len() == 0,
        forall|h: Set<int>, cv: Seq<bool>| in_domain(h, Seq::empty()) ==> term_holds(t, h, cv),
{
    let a = Atom::any();
    proof {
        assert forall|h: Set<int>| in_domain(h, Seq::empty()) implies atom_holds(a, h) by {
            lemma_any_atom(a, h);
        }
    }
    atom_term(a)
}

/// The term that leaves `c` (negated when `neg`) to be checked by rejection.
fn residual_term(c: &HandConstraint, neg: bool) -> (t: DnfTerm)
    ensures
        t.residual is Some,
        t.atom.eval@.len() == 0,
        forall|h: Set<int>, cv: Seq<bool>| in_domain(h, Seq::empty()) ==> term_holds(t, h, cv) == signed(*c, neg, h, cv),
{
    let a = Atom::any();
    let d = c.duplicate();
    let r = if neg {
        d.not()
    } else {
        d
    };
    proof {
        assert forall|h: Set<int>| in_domain(h, Seq::empty()) implies atom_holds(a, h) by {
            lemma_any_atom(a, h);
        }
    }
    DnfTerm { atom: a, custom: Vec::new(), residual: Option::Some(r) }
}

/// The term of a custom literal alone.
fn custom_term(p: &CustomPred, neg: bool) -> (t: DnfTerm)
    ensures
        t.residual is None,
        t.atom.eval@.len() == 0,
        forall|h: Set<int>, cv: Seq<bool>| in_domain(h, Seq::empty()) ==> term_holds(t, h, cv) == (custom_value(*p, cv) != neg),
{
    let a = Atom::any();
    let mut custom: Vec<(CustomPred, bool)> = Vec::new();
    custom.push((p.duplicate(), neg));
    proof {
        assert forall|h: Set<int>| in_domain(h, Seq::empty()) implies atom_holds(a, h) by {
            lemma_any_atom(a, h);
        }
        assert forall|cv: Seq<bool>| lits_hold(custom@, cv) == (custom_value(*p, cv) != neg) by {
            assert(lit_holds(custom@[0], cv) == (custom_value(*p, cv) != neg));
        }
    }
    DnfTerm { atom: a, custom, residual: Option::None }
}

/// The conjunction of two terms.
fn conj_term(s: &DnfTerm, t: &DnfTerm) -> (u: DnfTerm)
    ensures
        u.residual is None <==> (s.residual is None && t.residual is None),
        forall|h: Set<int>| in_domain(h, s.atom.eval@) && in_domain(h, t.atom.eval@) ==> #[trigger] in_domain(h, u.atom.eval@),
        forall|h: Set<int>, cv: Seq<bool>| in_domain(h, s.atom.eval@) && in_domain(h, t.atom.eval@) ==> term_holds(u, h, cv) == (term_holds(*s, h, cv) && term_holds(*t, h, cv)),
{
    let atom = s.atom.intersect(&t.atom);
    let mut custom = copy_lits(&s.custom);
    let mut more = copy_lits(&t.custom);
    let ghost c1 = custom@;
    let ghost c2 = more@;
    custom.append(&mut more);
    let residual = match (&s.residual, &t.residual) {
        (Option::None, Option::None) => Option::None,
        (Option::Some(a), Option::None) => Option::Some(a.duplicate()),
        (Option::None, Option::Some(b)) => Option::Some(b.duplicate()),
        (Option::Some(a), Option::Some(b)) => Option::Some(a.duplicate().and(b.duplicate())),
    };
    proof {
        assert forall|h: Set<int>| in_domain(h, s.atom.eval@) && in_domain(h, t.atom.eval@) implies #[trigger] in_domain(h, atom.eval@) by {
            lemma_domain_concat(h, s.atom.eval@, t.atom.eval@);
            lemma_metrics_from_domain(h, atom.eval@, s.atom.eval@ + t.atom.eval@);
        }
        assert forall|cv: Seq<bool>| lits_hold(custom@, cv) == (lits_hold(s.custom@, cv) && lits_hold(t.custom@, cv)) by {
            assert(custom@ =~= c1 + c2);
            if lits_hold(custom@, cv) {
                assert forall|k: int| 0 <= k < c1.len() implies #[trigger] lit_holds(c1[k], cv) by {
                    assert(lit_holds(custom@[k], cv));
                }
                assert forall|k: int| 0 <= k < c2.len() implies #[trigger] lit_holds(c2[k], cv) by {
                    assert(lit_holds(custom@[c1.len() + k], cv));
                }
            }
            if lits_hold(c1, cv) && lits_hold(c2, cv) {
                assert forall|k: int| 0 <= k < custom@.len() implies #[trigger] lit_holds(custom@[k], cv) by {
                    if k < c1.len() {
                        assert(lit_holds(c1[k], cv));
                    } else {
                        assert(lit_holds(c2[k - c1.len()], cv));
                    }
                }
            }
        }
    }
    DnfTerm { atom, custom, residual }
}


/// What the expansion of `c` under polarity `neg` promises: the terms mean the signed
/// constraint on its domain, where their atoms are within their bounds, respect the cap when it can be met, and carry residuals only
/// when the policy allowed them.
pub open spec fn expansion_ok(c: HandConstraint, neg: bool, opts: DnfOptions, ts: Seq<DnfTerm>, trunc: bool) -> bool {
    &&& forall|h: Set<int>, cv: Seq<bool>| dnf_domain(c, h) ==> (#[trigger] terms_hold(ts, h, cv)) == signed(c, neg, h, cv)
    &&& forall|h: Set<int>| dnf_domain(c, h) ==> #[trigger] atoms_in_domain(ts, h)
    &&& (opts.max_terms >= 1 || opts.on_overflow == Overflow::Error) ==> ts.len() <= opts.max_terms
    &&& !trunc ==> no_residual(ts)
    &&& trunc ==> opts.on_overflow == Overflow::Residual
}

/// What a failed expansion reports: the policy forbade residuals and the count passed the cap.
pub open spec fn overflow_ok(opts: DnfOptions, e: usize) -> bool {
    &&& opts.on_overflow == Overflow::Error
    &&& (e > opts.max_terms || e == usize::MAX)
}

/// The terms of a list with one member.
proof fn lemma_single(t: DnfTerm, v: Seq<DnfTerm>, h: Set<int>, cv: Seq<bool>)
    requires
        v.len() == 1,
        v[0] == t,
    ensures
        terms_hold(v, h, cv) == term_holds(t, h, cv),
{
    if term_holds(t, h, cv) {
        assert(term_holds(v[0], h, cv));
    }
}

/// Applies the cap to the finished expansion `ts` of `c`.
fn fit(c: &HandConstraint, neg: bool, ts: Vec<DnfTerm>, trunc: bool, opts: &DnfOptions) -> (r: Result<(Vec<DnfTerm>, bool), usize>)
    requires
        forall|h: Set<int>, cv: Seq<bool>| dnf_domain(*c, h) ==> (#[trigger] terms_hold(ts@, h, cv)) == signed(*c, neg, h, cv),
        forall|h: Set<int>| dnf_domain(*c, h) ==> #[trigger] atoms_in_domain(ts@, h),
        !trunc ==> no_residual(ts@),
        trunc ==> opts.on_overflow == Overflow::Residual,
    ensures
        match r {
            Result::Ok((v, t)) => expansion_ok(*c, neg, *opts, v@, t),
            Result::Err(e) => overflow_ok(*opts, e),
        },
        opts.on_overflow == Overflow::Residual ==> r is Ok,
        ts.len() <= opts.max_terms ==> r is Ok,
        opts.on_overflow == Overflow::Error ==> (r matches Result::Ok((v, _)) ==> v.len() == ts.len()),
{
    if ts.len() <= opts.max_terms {
        return Result::Ok((ts, trunc));
    }
    match opts.on_overflow {
        Overflow::Error => Result::Err(ts.len()),
        Overflow::Residual => {
            if opts.max_terms == 0 {
                Result::Ok((ts, trunc))
            } else {
                let t = residual_term(c, neg);
                let ghost tt = t;
                let mut v: Vec<DnfTerm> = Vec::new();
                v.push(t);
                proof {
                    assert forall|h: Set<int>, cv: Seq<bool>| dnf_domain(*c, h) implies (#[trigger] terms_hold(v@, h, cv)) == signed(*c, neg, h, cv) by {
                        lemma_single(tt, v@, h, cv);
                    }
                    assert forall|h: Set<int>| dnf_domain(*c, h) implies #[trigger] atoms_in_domain(v@, h) by {
                        lemma_plain_atoms(v@, h);
                    }
                }
                Result::Ok((v, true))
            }
        },
    }
}

/// The terms of the atoms of `atoms`.
fn terms_of_atoms(atoms: &Vec<Atom>) -> (r: Vec<DnfTerm>)
    ensures
        no_residual(r@),
        r.len() == atoms.len(),
        forall|k: int| 0 <= k < r.len() ==> metrics_from((#[trigger] r@[k]).atom.eval@, atoms@[k].eval@),
        forall|h: Set<int>, cv: Seq<bool>| #[trigger] terms_hold(r@, h, cv) == some_holds(atoms@, h),
{
    let mut r: Vec<DnfTerm> = Vec::new();
    let mut i: usize = 0;
    while i < atoms.len()
        invariant
            i <= atoms.len(),
            r.len() == i,
            no_residual(r@),
            forall|k: int| 0 <= k < i ==> metrics_from((#[trigger] r@[k]).atom.eval@, atoms@[k].eval@),
            forall|k: int, h: Set<int>, cv: Seq<bool>| 0 <= k < i ==> #[trigger] term_holds(r@[k], h, cv) == atom_holds(atoms@[k], h),
        decreases atoms.len() - i,
    {
        let t = atom_term(atoms[i].duplicate());
        proof {
            assert forall|q: int| 0 <= q < t.atom.eval@.len() implies exists|j: int| 0 <= j < atoms@[i as int].eval@.len() && (#[trigger] t.atom.eval@[q]).metric == (#[trigger] atoms@[i as int].eval@[j]).metric by {
                assert(t.atom.eval@[q].metric == atoms@[i as int].eval@[q].metric);
            }
        }
        r.push(t);
        i = i + 1;
    }
    proof {
        assert forall|h: Set<int>, cv: Seq<bool>| #[trigger] terms_hold(r@, h, cv) == some_holds(atoms@, h) by {
            if terms_hold(r@, h, cv) {
                let k = choose|k: int| 0 <= k < r@.len() && #[trigger] term_holds(r@[k], h, cv);
                assert(atom_holds(atoms@[k], h));
            }
            if some_holds(atoms@, h) {
                let k = choose|k: int| 0 <= k < atoms@.len() && atom_holds(#[trigger] atoms@[k], h);
                assert(term_holds(r@[k], h, cv));
            }
        }
    }
    r
}

/// The conjunctions of `x` with each term of `ys`.
fn row_of(x: &DnfTerm, ys: &Vec<DnfTerm>) -> (r: Vec<DnfTerm>)
    ensures
        r.len() == ys.len(),
        forall|h: Set<int>| in_domain(h, x.atom.eval@) && atoms_in_domain(ys@, h) ==> #[trigger] atoms_in_domain(r@, h),
        forall|h: Set<int>, cv: Seq<bool>| in_domain(h, x.atom.eval@) && atoms_in_domain(ys@, h) ==> (#[trigger] terms_hold(r@, h, cv)) == (term_holds(*x, h, cv) && terms_hold(ys@, h, cv)),
        x.residual is None && no_residual(ys@) ==> no_residual(r@),
{
    let mut r: Vec<DnfTerm> = Vec::new();
    let mut j: usize = 0;
    while j < ys.len()
        invariant
            j <= ys.len(),
            r.len() == j,
            forall|k: int, h: Set<int>, cv: Seq<bool>| 0 <= k < j && in_domain(h, x.atom.eval@) && in_domain(h, ys@[k].atom.eval@) ==> #[trigger] term_holds(r@[k], h, cv) == (term_holds(*x, h, cv) && term_holds(ys@[k], h, cv)),
            forall|k: int, h: Set<int>| 0 <= k < j && in_domain(h, x.atom.eval@) && in_domain(h, ys@[k].atom.eval@) ==> #[trigger] in_domain(h, r@[k].atom.eval@),
            forall|k: int| 0 <= k < j ==> ((#[trigger] r@[k]).residual is None <==> (x.residual is None && ys@[k].residual is None)),
        decreases ys.len() - j,
    {
        let t = conj_term(x, &ys[j]);
        r.push(t);
        j = j + 1;
    }
    proof {
        assert forall|h: Set<int>| in_domain(h, x.atom.eval@) && atoms_in_domain(ys@, h) implies #[trigger] atoms_in_domain(r@, h) by {
            assert forall|k: int| 0 <= k < r@.len() implies in_domain(h, (#[trigger] r@[k]).atom.eval@) by {
                assert(in_domain(h, ys@[k].atom.eval@));
            }
        }
        assert forall|h: Set<int>, cv: Seq<bool>| in_domain(h, x.atom.eval@) && atoms_in_domain(ys@, h) implies (#[trigger] terms_hold(r@, h, cv)) == (term_holds(*x, h, cv) && terms_hold(ys@, h, cv)) by {
            if terms_hold(r@, h, cv) {
                let k = choose|k: int| 0 <= k < r@.len() && #[trigger] term_holds(r@[k], h, cv);
                assert(in_domain(h, ys@[k].atom.eval@));
                assert(term_holds(ys@[k], h, cv));
            }
            if term_holds(*x, h, cv) && terms_hold(ys@, h, cv) {
                let k = choose|k: int| 0 <= k < ys@.len() && #[trigger] term_holds(ys@[k], h, cv);
                assert(in_domain(h, ys@[k].atom.eval@));
                assert(term_holds(r@[k], h, cv));
            }
        }
        if x.residual is None && no_residual(ys@) {
            assert forall|k: int| 0 <= k < r@.len() implies (#[trigger] r@[k]).residual is None by {
                assert(ys@[k].residual is None);
            }
        }
    }
    r
}

/// Some term of `xs` before position `i` holds.
pub open spec fn some_term_before(xs: Seq<DnfTerm>, i: int, h: Set<int>, cv: Seq<bool>) -> bool {
    exists|k: int| 0 <= k < i && #[trigger] term_holds(xs[k], h, cv)
}

/// The pairwise conjunctions of the terms of `xs` and `ys`.
fn product(xs: &Vec<DnfTerm>, ys: &Vec<DnfTerm>) -> (r: Vec<DnfTerm>)
    ensures
        r.len() == xs.len() * ys.len(),
        forall|h: Set<int>| atoms_in_domain(xs@, h) && atoms_in_domain(ys@, h) ==> #[trigger] atoms_in_domain(r@, h),
        forall|h: Set<int>, cv: Seq<bool>| atoms_in_domain(xs@, h) && atoms_in_domain(ys@, h) ==> (#[trigger] terms_hold(r@, h, cv)) == (terms_hold(xs@, h, cv) && terms_hold(ys@, h, cv)),
        no_residual(xs@) && no_residual(ys@) ==> no_residual(r@),
{
    let mut r: Vec<DnfTerm> = Vec::new();
    let mut i: usize = 0;
    while i < xs.len()
        invariant
            i <= xs.len(),
            r.len() == i * ys.len(),
            forall|h: Set<int>| atoms_in_domain(xs@, h) && atoms_in_domain(ys@, h) ==> #[trigger] atoms_in_domain(r@, h),
            forall|h: Set<int>, cv: Seq<bool>| atoms_in_domain(xs@, h) && atoms_in_domain(ys@, h) ==> (#[trigger] terms_hold(r@, h, cv)) == (some_term_before(xs@, i as int, h, cv) && terms_hold(ys@, h, cv)),
            no_residual(xs@) && no_residual(ys@) ==> no_residual(r@),
        decreases xs.len() - i,
    {
        let mut row = row_of(&xs[i], ys);
        let ghost before = r@;
        let ghost rw = row@;
        r.append(&mut row);
        proof {
            assert(r@ =~= before + rw);
            assert((i + 1) * ys.len() == i * ys.len() + ys.len()) by (nonlinear_arith);
            assert forall|h: Set<int>| atoms_in_domain(xs@, h) && atoms_in_domain(ys@, h) implies #[trigger] atoms_in_domain(r@, h) by {
                assert(in_domain(h, xs@[i as int].atom.eval@));
                assert(atoms_in_domain(before, h));
                assert(atoms_in_domain(rw, h));
                assert forall|k: int| 0 <= k < r@.len() implies in_domain(h, (#[trigger] r@[k]).atom.eval@) by {
                    if k < before.len() {
                        assert(r@[k] == before[k]);
                    } else {
                        assert(r@[k] == rw[k - before.len()]);
                    }
                }
            }
            assert forall|h: Set<int>, cv: Seq<bool>| atoms_in_domain(xs@, h) && atoms_in_domain(ys@, h) implies (#[trigger] terms_hold(r@, h, cv)) == (some_term_before(xs@, i + 1, h, cv) && terms_hold(ys@, h, cv)) by {
                assert(in_domain(h, xs@[i as int].atom.eval@));
                lemma_terms_concat(before, rw, h, cv);
                if some_term_before(xs@, i + 1, h, cv) {
                    let k = choose|k: int| 0 <= k < i + 1 && #[trigger] term_holds(xs@[k], h, cv);
                    if k < i {
                        assert(some_term_before(xs@, i as int, h, cv));
                    }
                }
                if some_term_before(xs@, i as int, h, cv) {
                    let k = choose|k: int| 0 <= k < i && #[trigger] term_holds(xs@[k], h, cv);
                    assert(some_term_before(xs@, i + 1, h, cv));
                }
                if term_holds(xs@[i as int], h, cv) {
                    assert(some_term_before(xs@, i + 1, h, cv));
                }
            }
            if no_residual(xs@) && no_residual(ys@) {
                assert(xs@[i as int].residual is None);
                assert forall|k: int| 0 <= k < r@.len() implies (#[trigger] r@[k]).residual is None by {
                    if k < before.len() {
                        assert(before[k].residual is None);
                    } else {
                        assert(rw[k - before.len()].residual is None);
                    }
                }
            }
        }
        i = i + 1;
    }
    proof {
        assert forall|h: Set<int>, cv: Seq<bool>| atoms_in_domain(xs@, h) && atoms_in_domain(ys@, h) implies (#[trigger] terms_hold(r@, h, cv)) == (terms_hold(xs@, h, cv) && terms_hold(ys@, h, cv)) by {
            if terms_hold(xs@, h, cv) {
                let k = choose|k: int| 0 <= k < xs@.len() && #[trigger] term_holds(xs@[k], h, cv);
                assert(some_term_before(xs@, xs@.len() as int, h, cv));
            }
        }
    }
    r
}


/// Some constraint of `xs` before position `i` holds under polarity `neg`.
pub open spec fn some_signed(xs: Seq<HandConstraint>, i: int, neg: bool, h: Set<int>, cv: Seq<bool>) -> bool {
    exists|k: int| 0 <= k < i && #[trigger] signed(xs[k], neg, h, cv)
}

/// Every constraint of `xs` before position `i` holds under polarity `neg`.
pub open spec fn all_signed(xs: Seq<HandConstraint>, i: int, neg: bool, h: Set<int>, cv: Seq<bool>) -> bool {
    forall|k: int| 0 <= k < i ==> #[trigger] signed(xs[k], neg, h, cv)
}

/// `c` is a disjunction or a conjunction whose members are `xs`.
pub open spec fn members(c: HandConstraint, xs: Vec<HandConstraint>) -> bool {
    ||| (c is Or && c->Or_0 == xs)
    ||| (c is And && c->And_0 == xs)
}

/// Expands a node whose meaning under `neg` is that some member holds under `neg`: the
/// union of the members' expansions.
fn union_children(c: &HandConstraint, xs: &Vec<HandConstraint>, neg: bool, opts: &DnfOptions) -> (r: Result<(Vec<DnfTerm>, bool), usize>)
    requires
        members(*c, *xs),
        forall|h: Set<int>, cv: Seq<bool>| dnf_domain(*c, h) ==> #[trigger] signed(*c, neg, h, cv) == some_signed(xs@, xs@.len() as int, neg, h, cv),
        expansion_bound(*c, neg) == bound_sum(xs@, neg),
    ensures
        match r {
            Result::Ok((v, t)) => expansion_ok(*c, neg, *opts, v@, t),
            Result::Err(e) => overflow_ok(*opts, e),
        },
        opts.on_overflow == Overflow::Residual ==> r is Ok,
        opts.on_overflow == Overflow::Error ==> (r matches Result::Ok((v, _)) ==> v.len() <= expansion_bound(*c, neg)),
        opts.on_overflow == Overflow::Error && expansion_bound(*c, neg) <= opts.max_terms ==> r is Ok,
    decreases c, 0int,
{
    let mut acc: Vec<DnfTerm> = Vec::new();
    let mut trunc = false;
    let mut i: usize = 0;
    while i < xs.len()
        invariant
            members(*c, *xs),
            i <= xs.len(),
            forall|h: Set<int>, cv: Seq<bool>| dnf_domain(*c, h) ==> (#[trigger] terms_hold(acc@, h, cv)) == some_signed(xs@, i as int, neg, h, cv),
            forall|h: Set<int>| dnf_domain(*c, h) ==> #[trigger] atoms_in_domain(acc@, h),
            !trunc ==> no_residual(acc@),
            trunc ==> opts.on_overflow == Overflow::Residual,
            expansion_bound(*c, neg) == bound_sum(xs@, neg),
            opts.on_overflow == Overflow::Error ==> acc.len() <= bound_sum(xs@.take(i as int), neg),
        decreases xs.len() - i,
    {
        proof {
            assert(decreases_to!(*c => xs@[i as int]));
            lemma_bound_sum(xs@, neg, i as int);
        }
        match dnf_of(&xs[i], neg, opts) {
            Result::Err(e) => {
                return Result::Err(e);
            },
            Result::Ok((v, t)) => {
                let mut v = v;
                let ghost before = acc@;
                let ghost vv = v@;
                acc.append(&mut v);
                proof {
                    assert(acc@ =~= before + vv);
                    assert forall|h: Set<int>| dnf_domain(*c, h) implies #[trigger] atoms_in_domain(acc@, h) by {
                        lemma_member_domain(*c, *xs, h, i as int);
                        assert(atoms_in_domain(before, h));
                        assert(atoms_in_domain(vv, h));
                        assert forall|k: int| 0 <= k < acc@.len() implies in_domain(h, (#[trigger] acc@[k]).atom.eval@) by {
                            if k < before.len() {
                                assert(acc@[k] == before[k]);
                            } else {
                                assert(acc@[k] == vv[k - before.len()]);
                            }
                        }
                    }
                    assert forall|h: Set<int>, cv: Seq<bool>| dnf_domain(*c, h) implies (#[trigger] terms_hold(acc@, h, cv)) == some_signed(xs@, i + 1, neg, h, cv) by {
                        lemma_member_domain(*c, *xs, h, i as int);
                        lemma_terms_concat(before, vv, h, cv);
                        assert(terms_hold(vv, h, cv) == signed(xs@[i as int], neg, h, cv));
                        if some_signed(xs@, i + 1, neg, h, cv) {
                            let k = choose|k: int| 0 <= k < i + 1 && #[trigger] signed(xs@[k], neg, h, cv);
                            if k < i {
                                assert(some_signed(xs@, i as int, neg, h, cv));
                            }
                        }
                        if some_signed(xs@, i as int, neg, h, cv) {
                            let k = choose|k: int| 0 <= k < i && #[trigger] signed(xs@[k], neg, h, cv);
                            assert(some_signed(xs@, i + 1, neg, h, cv));
                        }
                        if signed(xs@[i as int], neg, h, cv) {
                            assert(some_signed(xs@, i + 1, neg, h, cv));
                        }
                    }
                    if !(trunc || t) {
                        assert forall|k: int| 0 <= k < acc@.len() implies (#[trigger] acc@[k]).residual is None by {
                            if k < before.len() {
                                assert(before[k].residual is None);
                            } else {
                                assert(vv[k - before.len()].residual is None);
                            }
                        }
                    }
                }
                trunc = trunc || t;
            },
        }
        i = i + 1;
    }
    proof {
        assert(xs@.take(xs.len() as int) =~= xs@);
    }
    fit(c, neg, acc, trunc, opts)
}

/// Expands a node whose meaning under `neg` is that every member holds under `neg`: the
/// product of the members' expansions, with the largest members left to residuals while the
/// product passes the cap and the policy allows it.
fn conj_children(c: &HandConstraint, xs: &Vec<HandConstraint>, neg: bool, opts: &DnfOptions) -> (r: Result<(Vec<DnfTerm>, bool), usize>)
    requires
        members(*c, *xs),
        forall|h: Set<int>, cv: Seq<bool>| dnf_domain(*c, h) ==> #[trigger] signed(*c, neg, h, cv) == all_signed(xs@, xs@.len() as int, neg, h, cv),
        expansion_bound(*c, neg) == bound_product(xs@, neg),
    ensures
        match r {
            Result::Ok((v, t)) => expansion_ok(*c, neg, *opts, v@, t),
            Result::Err(e) => overflow_ok(*opts, e),
        },
        opts.on_overflow == Overflow::Residual ==> r is Ok,
        opts.on_overflow == Overflow::Error ==> (r matches Result::Ok((v, _)) ==> v.len() <= expansion_bound(*c, neg)),
        opts.on_overflow == Overflow::Error && expansion_bound(*c, neg) <= opts.max_terms ==> r is Ok,
    decreases c, 0int,
{
    let n = xs.len();
    let mut lists: Vec<Vec<DnfTerm>> = Vec::new();
    let mut trunc = false;
    let mut i: usize = 0;
    while i < n
        invariant
            members(*c, *xs),
            n == xs.len(),
            i <= n,
            lists.len() == i,
            forall|k: int, h: Set<int>, cv: Seq<bool>| 0 <= k < i && dnf_domain(*c, h) ==> #[trigger] terms_hold(lists@[k]@, h, cv) == signed(xs@[k], neg, h, cv),
            forall|k: int, h: Set<int>| 0 <= k < i && dnf_domain(*c, h) ==> #[trigger] atoms_in_domain(lists@[k]@, h),
            !trunc ==> forall|k: int| 0 <= k < i ==> no_residual(#[trigger] lists@[k]@),
            trunc ==> opts.on_overflow == Overflow::Residual,
            expansion_bound(*c, neg) == bound_product(xs@, neg),
            opts.on_overflow == Overflow::Error ==> forall|k: int| 0 <= k < i ==> (#[trigger] lists@[k]).len() <= expansion_bound(xs@[k], neg),
        decreases n - i,
    {
        proof {
            assert(decreases_to!(*c => xs@[i as int]));
            lemma_bound_product(xs@, neg, i as int);
            let p = bound_product(xs@.take(i as int), neg);
            let f = at_least_one(expansion_bound(xs@[i as int], neg));
            assert(f <= p * f) by (nonlinear_arith)
                requires
                    p >= 1,
            ;
        }
        match dnf_of(&xs[i], neg, opts) {
            Result::Err(e) => {
                return Result::Err(e);
            },
            Result::Ok((v, t)) => {
                let ghost before = lists@;
                lists.push(v);
                proof {
                    assert forall|k: int, h: Set<int>, cv: Seq<bool>| 0 <= k < i + 1 && dnf_domain(*c, h) implies #[trigger] terms_hold(lists@[k]@, h, cv) == signed(xs@[k], neg, h, cv) by {
                        lemma_member_domain(*c, *xs, h, k);
                        if k < i {
                            assert(lists@[k] == before[k]);
                        }
                    }
                    assert forall|k: int, h: Set<int>| 0 <= k < i + 1 && dnf_domain(*c, h) implies #[trigger] atoms_in_domain(lists@[k]@, h) by {
                        lemma_member_domain(*c, *xs, h, k);
                        if k < i {
                            assert(lists@[k] == before[k]);
                        }
                    }
                    if opts.on_overflow == Overflow::Error {
                        assert forall|k: int| 0 <= k < i + 1 implies (#[trigger] lists@[k]).len() <= expansion_bound(xs@[k], neg) by {
                            if k < i {
                                assert(lists@[k] == before[k]);
                            }
                        }
                    }
                }
                trunc = trunc || t;
            },
        }
        i = i + 1;
    }
    // Leave the largest members to residuals while the product passes the cap.
    if opts.on_overflow == Overflow::Residual {
        let mut round: usize = 0;
        while round < n
            invariant
                n == xs.len(),
                lists.len() == n,
                opts.on_overflow == Overflow::Residual,
                forall|k: int, h: Set<int>, cv: Seq<bool>| 0 <= k < n && dnf_domain(*c, h) ==> #[trigger] terms_hold(lists@[k]@, h, cv) == signed(xs@[k], neg, h, cv),
                forall|k: int, h: Set<int>| 0 <= k < n && dnf_domain(*c, h) ==> #[trigger] atoms_in_domain(lists@[k]@, h),
                !trunc ==> forall|k: int| 0 <= k < n ==> no_residual(#[trigger] lists@[k]@),
            decreases n - round,
        {
            let mut est: usize = 1;
            let mut k: usize = 0;
            while k < n
                invariant
                    k <= n,
                    lists.len() == n,
                decreases n - k,
            {
                est = match est.checked_mul(lists[k].len()) {
                    Option::Some(m) => m,
                    Option::None => usize::MAX,
                };
                k = k + 1;
            }
            if est <= opts.max_terms {
                break;
            }
            let mut j: usize = n;
            let mut best: usize = 1;
            let mut k: usize = 0;
            while k < n
                invariant
                    k <= n,
                    lists.len() == n,
                    j == n || j < n,
                decreases n - k,
            {
                if lists[k].len() > best {
                    best = lists[k].len();
                    j = k;
                }
                k = k + 1;
            }
            if j == n {
                break;
            }
            let t = residual_term(&xs[j], neg);
            let ghost tt = t;
            let mut v: Vec<DnfTerm> = Vec::new();
            v.push(t);
            let ghost before = lists@;
            lists[j] = v;
            proof {
                assert forall|k: int, h: Set<int>, cv: Seq<bool>| 0 <= k < n && dnf_domain(*c, h) implies #[trigger] terms_hold(lists@[k]@, h, cv) == signed(xs@[k], neg, h, cv) by {
                    if k == j {
                        lemma_single(tt, v@, h, cv);
                    } else {
                        assert(lists@[k] == before[k]);
                    }
                }
                assert forall|k: int, h: Set<int>| 0 <= k < n && dnf_domain(*c, h) implies #[trigger] atoms_in_domain(lists@[k]@, h) by {
                    if k == j {
                        lemma_plain_atoms(v@, h);
                    } else {
                        assert(lists@[k] == before[k]);
                    }
                }
            }
            trunc = true;
            round = round + 1;
        }
    }
    // Multiply out.
    let mut acc: Vec<DnfTerm> = Vec::new();
    acc.push(any_term());
    proof {
        assert forall|h: Set<int>, cv: Seq<bool>| dnf_domain(*c, h) implies (#[trigger] terms_hold(acc@, h, cv)) == all_signed(xs@, 0, neg, h, cv) by {
            assert(term_holds(acc@[0], h, cv));
        }
        assert forall|h: Set<int>| dnf_domain(*c, h) implies #[trigger] atoms_in_domain(acc@, h) by {
            lemma_plain_atoms(acc@, h);
        }
    }
    proof {
        lemma_bound_product_pos(xs@, neg);
    }
    if opts.max_terms == 0 {
        return match opts.on_overflow {
            Overflow::Error => Result::Err(1),
            Overflow::Residual => fit(c, neg, acc_whole(c, neg), true, opts),
        };
    }
    let mut k: usize = 0;
    while k < n
        invariant
            n == xs.len(),
            lists.len() == n,
            k <= n,
            opts.max_terms >= 1,
            acc.len() <= opts.max_terms,
            forall|q: int, h: Set<int>, cv: Seq<bool>| 0 <= q < n && dnf_domain(*c, h) ==> #[trigger] terms_hold(lists@[q]@, h, cv) == signed(xs@[q], neg, h, cv),
            forall|q: int, h: Set<int>| 0 <= q < n && dnf_domain(*c, h) ==> #[trigger] atoms_in_domain(lists@[q]@, h),
            forall|h: Set<int>, cv: Seq<bool>| dnf_domain(*c, h) ==> (#[trigger] terms_hold(acc@, h, cv)) == all_signed(xs@, k as int, neg, h, cv),
            forall|h: Set<int>| dnf_domain(*c, h) ==> #[trigger] atoms_in_domain(acc@, h),
            !trunc ==> forall|q: int| 0 <= q < n ==> no_residual(#[trigger] lists@[q]@),
            !trunc ==> no_residual(acc@),
            trunc ==> opts.on_overflow == Overflow::Residual,
            expansion_bound(*c, neg) == bound_product(xs@, neg),
            opts.on_overflow == Overflow::Error ==> forall|q: int| 0 <= q < n ==> (#[trigger] lists@[q]).len() <= expansion_bound(xs@[q], neg),
            opts.on_overflow == Overflow::Error ==> acc.len() <= bound_product(xs@.take(k as int), neg),
        decreases n - k,
    {
        proof {
            lemma_bound_product(xs@, neg, k as int);
            if opts.on_overflow == Overflow::Error {
                let a = acc.len() as int;
                let b = lists@[k as int].len() as int;
                let p = bound_product(xs@.take(k as int), neg) as int;
                let f = at_least_one(expansion_bound(xs@[k as int], neg)) as int;
                assert(a * b <= p * f) by (nonlinear_arith)
                    requires
                        0 <= a <= p,
                        0 <= b <= f,
                ;
            }
        }
        let size = acc.len().checked_mul(lists[k].len());
        let fits = match size {
            Option::Some(m) => m <= opts.max_terms,
            Option::None => false,
        };
        if !fits {
            return match opts.on_overflow {
                Overflow::Error => Result::Err(
                    match size {
                        Option::Some(m) => m,
                        Option::None => usize::MAX,
                    },
                ),
                Overflow::Residual => fit(c, neg, acc_whole(c, neg), true, opts),
            };
        }
        let next = product(&acc, &lists[k]);
        proof {
            assert forall|h: Set<int>| dnf_domain(*c, h) implies #[trigger] atoms_in_domain(next@, h) by {
                assert(atoms_in_domain(acc@, h));
                assert(atoms_in_domain(lists@[k as int]@, h));
            }
            assert forall|h: Set<int>, cv: Seq<bool>| dnf_domain(*c, h) implies (#[trigger] terms_hold(next@, h, cv)) == all_signed(xs@, k + 1, neg, h, cv) by {
                assert(atoms_in_domain(acc@, h));
                assert(atoms_in_domain(lists@[k as int]@, h));
                assert(terms_hold(acc@, h, cv) == all_signed(xs@, k as int, neg, h, cv));
                assert(terms_hold(lists@[k as int]@, h, cv) == signed(xs@[k as int], neg, h, cv));
                if all_signed(xs@, k + 1, neg, h, cv) {
                    assert forall|q: int| 0 <= q < k implies #[trigger] signed(xs@[q], neg, h, cv) by {
                        assert(signed(xs@[q], neg, h, cv));
                    }
                    assert(signed(xs@[k as int], neg, h, cv));
                }
            }
            if !trunc {
                assert(no_residual(lists@[k as int]@));
            }
        }
        acc = next;
        k = k + 1;
    }
    proof {
        assert forall|h: Set<int>, cv: Seq<bool>| dnf_domain(*c, h) implies (#[trigger] terms_hold(acc@, h, cv)) == signed(*c, neg, h, cv) by {
            assert(signed(*c, neg, h, cv) == all_signed(xs@, xs@.len() as int, neg, h, cv));
        }
        assert(xs@.take(n as int) =~= xs@);
    }
    Result::Ok((acc, trunc))
}

/// The one-term expansion that leaves the whole of `c` (under `neg`) to a residual.
fn acc_whole(c: &HandConstraint, neg: bool) -> (v: Vec<DnfTerm>)
    ensures
        v.len() == 1,
        forall|h: Set<int>, cv: Seq<bool>| dnf_domain(*c, h) ==> (#[trigger] terms_hold(v@, h, cv)) == signed(*c, neg, h, cv),
        forall|h: Set<int>| dnf_domain(*c, h) ==> #[trigger] atoms_in_domain(v@, h),
{
    let t = residual_term(c, neg);
    let ghost tt = t;
    let mut v: Vec<DnfTerm> = Vec::new();
    v.push(t);
    proof {
        assert forall|h: Set<int>, cv: Seq<bool>| dnf_domain(*c, h) implies (#[trigger] terms_hold(v@, h, cv)) == signed(*c, neg, h, cv) by {
            lemma_single(tt, v@, h, cv);
        }
        assert forall|h: Set<int>| dnf_domain(*c, h) implies #[trigger] atoms_in_domain(v@, h) by {
            lemma_plain_atoms(v@, h);
        }
    }
    v
}

/// Expands `c` under polarity `neg` (its negation when `neg`) into DNF terms.
fn dnf_of(c: &HandConstraint, neg: bool, opts: &DnfOptions) -> (r: Result<(Vec<DnfTerm>, bool), usize>)
    ensures
        match r {
            Result::Ok((v, t)) => expansion_ok(*c, neg, *opts, v@, t),
            Result::Err(e) => overflow_ok(*opts, e),
        },
        opts.on_overflow == Overflow::Residual ==> r is Ok,
        opts.on_overflow == Overflow::Error ==> (r matches Result::Ok((v, _)) ==> v.len() <= expansion_bound(*c, neg)),
        opts.on_overflow == Overflow::Error && expansion_bound(*c, neg) <= opts.max_terms ==> r is Ok,
    decreases c, 1int,
{
    match c {
        HandConstraint::Atom(a) => {
            if !neg {
                let t = atom_term(a.duplicate());
                let ghost tt = t;
                let mut v: Vec<DnfTerm> = Vec::new();
                v.push(t);
                proof {
                    assert forall|h: Set<int>, cv: Seq<bool>| dnf_domain(*c, h) implies (#[trigger] terms_hold(v@, h, cv)) == signed(*c, neg, h, cv) by {
                        lemma_single(tt, v@, h, cv);
                    }
                    assert forall|h: Set<int>| dnf_domain(*c, h) implies #[trigger] atoms_in_domain(v@, h) by {
                        assert(in_domain(h, a.eval@));
                        assert forall|q: int| 0 <= q < tt.atom.eval@.len() implies metric_value((#[trigger] tt.atom.eval@[q]).metric, h) <= metric_max(tt.atom.eval@[q].metric) by {
                            assert(tt.atom.eval@[q].metric == a.eval@[q].metric);
                        }
                        assert(v@[0] == tt);
                    }
                }
                fit(c, neg, v, false, opts)
            } else {
                let atoms = a.negate();
                let v = terms_of_atoms(&atoms);
                proof {
                    assert forall|h: Set<int>, cv: Seq<bool>| dnf_domain(*c, h) implies (#[trigger] terms_hold(v@, h, cv)) == signed(*c, neg, h, cv) by {
                        assert(in_domain(h, a.eval@));
                    }
                    assert forall|h: Set<int>| dnf_domain(*c, h) implies #[trigger] atoms_in_domain(v@, h) by {
                        assert forall|k: int| 0 <= k < v@.len() implies in_domain(h, (#[trigger] v@[k]).atom.eval@) by {
                            assert(metrics_from(atoms@[k].eval@, a.eval@));
                            lemma_metrics_from_domain(h, atoms@[k].eval@, a.eval@);
                            lemma_metrics_from_domain(h, v@[k].atom.eval@, atoms@[k].eval@);
                        }
                    }
                }
                fit(c, neg, v, false, opts)
            }
        },
        HandConstraint::Custom(p) => {
            let t = custom_term(p, neg);
            let ghost tt = t;
            let mut v: Vec<DnfTerm> = Vec::new();
            v.push(t);
            proof {
                assert forall|h: Set<int>, cv: Seq<bool>| dnf_domain(*c, h) implies (#[trigger] terms_hold(v@, h, cv)) == signed(*c, neg, h, cv) by {
                    lemma_single(tt, v@, h, cv);
                }
                assert forall|h: Set<int>| dnf_domain(*c, h) implies #[trigger] atoms_in_domain(v@, h) by {
                    lemma_plain_atoms(v@, h);
                }
            }
            fit(c, neg, v, false, opts)
        },
        HandConstraint::Not(x) => {
            let r = dnf_of(&**x, !neg, opts);
            proof {
                if r is Ok {
                    let v = r->Ok_0.0;
                    assert forall|h: Set<int>, cv: Seq<bool>| dnf_domain(*c, h) implies (#[trigger] terms_hold(v@, h, cv)) == signed(*c, neg, h, cv) by {
                        assert(dnf_domain(**x, h));
                        assert(terms_hold(v@, h, cv) == signed(**x, !neg, h, cv));
                    }
                    assert forall|h: Set<int>| dnf_domain(*c, h) implies #[trigger] atoms_in_domain(v@, h) by {
                        assert(dnf_domain(**x, h));
                    }
                }
            }
            r
        },
        HandConstraint::Or(xs) => {
            if !neg {
                proof {
                    assert forall|h: Set<int>, cv: Seq<bool>| dnf_domain(*c, h) implies #[trigger] signed(*c, neg, h, cv) == some_signed(xs@, xs@.len() as int, neg, h, cv) by {
                        lemma_any_holds(xs@, h, cv);
                        if some_signed(xs@, xs@.len() as int, neg, h, cv) {
                            let k = choose|k: int| 0 <= k < xs@.len() && #[trigger] signed(xs@[k], neg, h, cv);
                            assert(holds(xs@[k], h, cv));
                        }
                        if holds(*c, h, cv) {
                            let k = choose|k: int| 0 <= k < xs@.len() && #[trigger] holds(xs@[k], h, cv);
                            assert(signed(xs@[k], neg, h, cv));
                        }
                    }
                }
                union_children(c, xs, neg, opts)
            } else {
                proof {
                    assert forall|h: Set<int>, cv: Seq<bool>| dnf_domain(*c, h) implies #[trigger] signed(*c, neg, h, cv) == all_signed(xs@, xs@.len() as int, neg, h, cv) by {
                        lemma_any_holds(xs@, h, cv);
                        if all_signed(xs@, xs@.len() as int, neg, h, cv) && holds(*c, h, cv) {
                            let k = choose|k: int| 0 <= k < xs@.len() && #[trigger] holds(xs@[k], h, cv);
                            assert(signed(xs@[k], neg, h, cv));
                        }
                        if !holds(*c, h, cv) {
                            assert forall|k: int| 0 <= k < xs@.len() implies #[trigger] signed(xs@[k], neg, h, cv) by {
                                if holds(xs@[k], h, cv) {
                                    assert(exists|k: int| 0 <= k < xs@.len() && #[trigger] holds(xs@[k], h, cv));
                                }
                            }
                        }
                    }
                }
                conj_children(c, xs, neg, opts)
            }
        },
        HandConstraint::And(xs) => {
            if neg {
                proof {
                    assert forall|h: Set<int>, cv: Seq<bool>| dnf_domain(*c, h) implies #[trigger] signed(*c, neg, h, cv) == some_signed(xs@, xs@.len() as int, neg, h, cv) by {
                        lemma_all_hold(xs@, h, cv);
                        if some_signed(xs@, xs@.len() as int, neg, h, cv) {
                            let k = choose|k: int| 0 <= k < xs@.len() && #[trigger] signed(xs@[k], neg, h, cv);
                            assert(!holds(xs@[k], h, cv));
                        }
                        if !holds(*c, h, cv) {
                            let k = choose|k: int| 0 <= k < xs@.len() && !#[trigger] holds(xs@[k], h, cv);
                            assert(signed(xs@[k], neg, h, cv));
                        }
                    }
                }
                union_children(c, xs, neg, opts)
            } else {
                proof {
                    assert forall|h: Set<int>, cv: Seq<bool>| dnf_domain(*c, h) implies #[trigger] signed(*c, neg, h, cv) == all_signed(xs@, xs@.len() as int, neg, h, cv) by {
                        lemma_all_hold(xs@, h, cv);
                        if all_signed(xs@, xs@.len() as int, neg, h, cv) {
                            assert forall|k: int| 0 <= k < xs@.len() implies #[trigger] holds(xs@[k], h, cv) by {
                                assert(signed(xs@[k], neg, h, cv));
                            }
                        }
                        if holds(*c, h, cv) {
                            assert forall|k: int| 0 <= k < xs@.len() implies #[trigger] signed(xs@[k], neg, h, cv) by {
                                assert(holds(xs@[k], h, cv));
                            }
                        }
                    }
                }
                conj_children(c, xs, neg, opts)
            }
        },
    }
}

impl DnfTerm {
    /// Whether `hand` (a 13-card hand) satisfies the whole term (atom, custom literals and
    /// residual); the value of the custom predicate with id `i` is `custom[i]`.
    pub fn satisfies(&self, hand: Hand, custom: &[bool]) -> (r: bool)
        requires
            crate::shape::valid13(hand_lens(hand@)),
        ensures
            r == term_holds(*self, hand@, custom@),
    {
        if !self.atom.satisfies(hand) {
            return false;
        }
        let mut i: usize = 0;
        while i < self.custom.len()
            invariant
                i <= self.custom.len(),
                forall|k: int| 0 <= k < i ==> #[trigger] lit_holds(self.custom@[k], custom@),
            decreases self.custom.len() - i,
        {
            let id = self.custom[i].0.id;
            let v = id < custom.len() && custom[id];
            if v == self.custom[i].1 {
                proof {
                    assert(!lit_holds(self.custom@[i as int], custom@));
                }
                return false;
            }
            i = i + 1;
        }
        match &self.residual {
            Option::None => true,
            Option::Some(c) => c.satisfies(hand, custom),
        }
    }

    /// `true` when the term has neither custom literals nor a residual.
    pub fn is_exact(&self) -> (r: bool)
        ensures
            r == (self.custom@.len() == 0 && self.residual is None),
    {
        self.custom.len() == 0 && self.residual.is_none()
    }
}

impl HandConstraint {
    /// Disjunctive normal form. Done once before sampling; see [`DnfOptions`] for the cap.
    ///
    /// On every 13-card hand on which the metrics that the constraint constrains are within
    /// their bounds, the DNF holds exactly when the constraint does.
    pub fn to_dnf(&self, opts: &DnfOptions) -> (r: Result<Dnf, DnfError>)
        ensures
            match r {
                Result::Ok(d) => {
                    &&& forall|h: Set<int>, cv: Seq<bool>| dnf_domain(*self, h) ==> #[trigger] dnf_holds(d, h, cv) == holds(*self, h, cv)
                    &&& forall|h: Set<int>, cv: Seq<bool>|
                        h.subset_of(crate::hand::deck()) && h.len() == 13 && bounded(*self, h)
                        ==> #[trigger] dnf_holds(d, h, cv) == holds(*self, h, cv)
                    &&& (opts.max_terms >= 1 || opts.on_overflow == Overflow::Error) ==> d.terms.len() <= opts.max_terms
                    &&& d.truncated == !no_residual(d.terms@)
                    &&& d.truncated ==> opts.on_overflow == Overflow::Residual
                },
                Result::Err(DnfError::TooLarge { estimated, max_terms }) => {
                    &&& opts.on_overflow == Overflow::Error
                    &&& max_terms == opts.max_terms
                    &&& (estimated > max_terms || estimated == usize::MAX)
                },
            },
            opts.on_overflow == Overflow::Residual ==> r is Ok,
            opts.on_overflow == Overflow::Error && expansion_bound(*self, false) <= opts.max_terms ==> r is Ok,
            opts.on_overflow == Overflow::Error ==> (r matches Result::Ok(d) ==> d.terms.len() <= expansion_bound(*self, false)),
    {
        match dnf_of(self, false, opts) {
            Result::Ok((terms, cut)) => {
                // The flag reports the residuals that survived the expansion.
                let mut truncated = false;
                let mut i: usize = 0;
                while i < terms.len()
                    invariant
                        i <= terms.len(),
                        truncated == exists|k: int| 0 <= k < i && (#[trigger] terms@[k]).residual is Some,
                    decreases terms.len() - i,
                {
                    if terms[i].residual.is_some() {
                        truncated = true;
                    }
                    i = i + 1;
                }
                let d = Dnf { terms, truncated };
                proof {
                    assert forall|h: Set<int>, cv: Seq<bool>| dnf_domain(*self, h) implies #[trigger] dnf_holds(d, h, cv) == holds(*self, h, cv) by {
                        assert(terms_hold(d.terms@, h, cv) == signed(*self, false, h, cv));
                    }
                    assert forall|h: Set<int>, cv: Seq<bool>|
                        h.subset_of(crate::hand::deck()) && h.len() == 13 && bounded(*self, h)
                        implies #[trigger] dnf_holds(d, h, cv) == holds(*self, h, cv) by {
                        lemma_thirteen_card_domain(*self, h);
                    }
                }
                Result::Ok(d)
            },
            Result::Err(e) => Result::Err(DnfError::TooLarge { estimated: e, max_terms: opts.max_terms }),
        }
    }

    /// Summary: the smallest range that holds the HCP ranges of the DNF terms; every hand
    /// that satisfies the constraint has its point count in it.
    pub fn hcp_range(&self) -> (r: RangeInclusive<u8>)
        ensures
            forall|h: Set<int>, cv: Seq<bool>| dnf_domain(*self, h) && holds(*self, h, cv) ==> in_range(r, hand_hcp(h)),
    {
        let d = match self.to_dnf(&DnfOptions::default()) {
            Result::Ok(d) => d,
            Result::Err(_) => {
                return make_range(0, 37);
            },
        };
        let mut lo: u8 = 255;
        let mut hi: u8 = 0;
        let mut any = false;
        let mut i: usize = 0;
        while i < d.terms.len()
            invariant
                i <= d.terms.len(),
                forall|q: int, x: int| 0 <= q < i && #[trigger] in_range(d.terms@[q].atom.hcp, x) ==> any && lo <= x <= hi,
            decreases d.terms.len() - i,
        {
            match range_bounds(&d.terms[i].atom.hcp) {
                Option::None => {},
                Option::Some((a, b)) => {
                    if !any || a < lo {
                        lo = a;
                    }
                    if !any || b > hi {
                        hi = b;
                    }
                    any = true;
                },
            }
            i = i + 1;
        }
        let r = if any {
            make_range(lo as i16, hi as i16)
        } else {
            make_range(1, 0)
        };
        proof {
            assert forall|h: Set<int>, cv: Seq<bool>| dnf_domain(*self, h) && holds(*self, h, cv) implies in_range(r, hand_hcp(h)) by {
                assert(dnf_holds(d, h, cv));
                let q = choose|q: int| 0 <= q < d.terms@.len() && #[trigger] term_holds(d.terms@[q], h, cv);
                assert(in_range(d.terms@[q].atom.hcp, hand_hcp(h)));
            }
        }
        r
    }

    /// Summary: the union of the shape sets of the DNF terms; every hand that satisfies the
    /// constraint has its shape in it.
    pub fn shapes(&self) -> (r: ShapeSet)
        ensures
            forall|h: Set<int>, cv: Seq<bool>| dnf_domain(*self, h) && holds(*self, h, cv) ==> r@.contains(shape_idx(hand_lens(h))),
    {
        let d = match self.to_dnf(&DnfOptions::default()) {
            Result::Ok(d) => d,
            Result::Err(_) => {
                return ShapeSet::all();
            },
        };
        let mut acc = ShapeSet::empty();
        let mut i: usize = 0;
        while i < d.terms.len()
            invariant
                i <= d.terms.len(),
                forall|q: int, j: int| 0 <= q < i && #[trigger] d.terms@[q].atom.shapes@.contains(j) ==> acc@.contains(j),
            decreases d.terms.len() - i,
        {
            acc = acc.union(d.terms[i].atom.shapes);
            i = i + 1;
        }
        proof {
            assert forall|h: Set<int>, cv: Seq<bool>| dnf_domain(*self, h) && holds(*self, h, cv) implies acc@.contains(shape_idx(hand_lens(h))) by {
                assert(dnf_holds(d, h, cv));
                let q = choose|q: int| 0 <= q < d.terms@.len() && #[trigger] term_holds(d.terms@[q], h, cv);
                assert(d.terms@[q].atom.shapes@.contains(shape_idx(hand_lens(h))));
            }
        }
        acc
    }

    /// Summary: the projection of [`HandConstraint::shapes`] onto `suit` (`1..=0` when no
    /// shape is left); every hand that satisfies the constraint has its length in `suit` in it.
    pub fn suit_len(&self, suit: Suit) -> (r: RangeInclusive<u8>)
        ensures
            forall|h: Set<int>, cv: Seq<bool>| dnf_domain(*self, h) && holds(*self, h, cv) ==> in_range(r, len_of(hand_lens(h), suit.idx())),
    {
        let s = self.shapes();
        let r = match s.suit_len(suit) {
            Option::Some(r) => r,
            Option::None => make_range(1, 0),
        };
        proof {
            assert forall|h: Set<int>, cv: Seq<bool>| dnf_domain(*self, h) && holds(*self, h, cv) implies in_range(r, len_of(hand_lens(h), suit.idx())) by {
                let t = hand_lens(h);
                crate::shape::lemma_shape_at(t);
                assert(s@.contains(shape_idx(t)));
            }
        }
        r
    }
}

} // verus!
