//! Preparing a sampler of hands that satisfy a constraint.

use vstd::prelude::*;
use vstd::arithmetic::power2::pow2;
use crate::atom::atom_holds;
use crate::card::Card;
use crate::constraint::{bounded, holds, no_custom, HandConstraint};
use crate::dist::hand_lens;
use crate::dnf::{dnf_domain, dnf_holds, term_holds, Dnf, DnfOptions, DnfTerm};
use crate::enumerate::{card_seq, hands_between, hands_from, lemma_hands_between, lemma_hands_from_short, lemma_pow2_step, lemma_split};
use crate::hand::Hand;
use crate::shape::valid13;

verus! {

/// A sampler could not be prepared (contract violations only; an unsatisfiable constraint is
/// not an error).
#[derive(Clone, Copy, PartialEq, Eq, Structural, Debug)]
pub enum PrepareError {
    /// `pool` and `fixed` share a card.
    Overlap,
    /// `fixed` has more than 13 cards.
    TooManyFixed(u8),
    /// The constraint contains a custom predicate and the options forbid rejection sampling.
    NotSamplable,
}

/// Options for [`Sampler::prepare`].
#[derive(Clone, Copy, PartialEq, Eq, Structural, Debug)]
pub struct SampleOptions {
    /// Maximum rejection retries per sample (default 256).
    pub max_tries: u32,
    /// Number of extra additive features the key may carry (`0` or `1`; default 1).
    pub extra_features: u8,
    /// Number of burn-in draws used to estimate the acceptance rate of rejected literals
    /// (default 256).
    pub burn_in: u32,
    /// Whether custom predicates and residuals may be rejection-sampled (default `true`).
    pub allow_rejection: bool,
}

impl Default for SampleOptions {
    fn default() -> (o: SampleOptions)
        ensures
            o.max_tries == 256,
            o.extra_features == 1,
            o.burn_in == 256,
            o.allow_rejection,
    {
        SampleOptions { max_tries: 256, extra_features: 1, burn_in: 256, allow_rejection: true }
    }
}

/// A term the exact path can draw without rejection: no custom literal, no residual, and no
/// more evaluation requirements than the key can carry.
pub open spec fn term_exact(t: DnfTerm, extra: int) -> bool {
    &&& t.custom@.len() == 0
    &&& t.residual is None
    &&& t.atom.eval@.len() <= extra
}

/// Every term of `ts` is exact.
pub open spec fn terms_exact(ts: Seq<DnfTerm>, extra: int) -> bool {
    forall|i: int| 0 <= i < ts.len() ==> #[trigger] term_exact(ts[i], extra)
}

/// No term of `ts` has a custom literal or a residual.
pub open spec fn terms_plain(ts: Seq<DnfTerm>) -> bool {
    forall|i: int| 0 <= i < ts.len() ==> (#[trigger] ts[i]).custom@.len() == 0 && ts[i].residual is None
}

/// The atom of some term of `ts` holds of `h`.
pub open spec fn in_union(ts: Seq<DnfTerm>, h: Set<int>) -> bool {
    exists|k: int| 0 <= k < ts.len() && #[trigger] atom_holds(ts[k].atom, h)
}

/// [`in_union`] as a predicate on hands.
pub open spec fn union_pred(ts: Seq<DnfTerm>) -> spec_fn(Set<int>) -> bool {
    |h: Set<int>| in_union(ts, h)
}

/// The hands enumerated from `a` and `l` that lie in the union of the atoms of `ts`.
pub open spec fn counted(ts: Seq<DnfTerm>, a: Set<int>, l: Seq<int>, n: nat) -> Set<Set<int>> {
    hands_from(a, l, n).filter(union_pred(ts))
}

/// The 13-card hands between `fixed` and `fixed ∪ pool` that lie in the union of the atoms
/// of `ts`.
pub open spec fn union_between(ts: Seq<DnfTerm>, fixed: Set<int>, pool: Set<int>) -> Set<Set<int>> {
    hands_between(fixed, pool).filter(union_pred(ts))
}

/// How many of the hands that add `n` of the first `m` cards of `cards` to `acc` lie in the
/// union of the atoms of `terms`; `n` of the first `m` cards are decided on from the last one
/// back, and a hand is only completed where enough cards are left.
fn count_from(terms: &Vec<DnfTerm>, acc: Hand, cards: &Vec<Card>, m: usize, n: usize) -> (r: u64)
    requires
        m <= cards.len() <= 52,
        acc@.len() + n == 13,
        card_seq(cards@).no_duplicates(),
        forall|i: int| 0 <= i < m ==> !acc@.contains(#[trigger] card_seq(cards@)[i]),
    ensures
        r == counted(terms@, acc@, card_seq(cards@).take(m as int), n as nat).len(),
        r <= pow2(m as nat),
    decreases m,
{
    let ghost l = card_seq(cards@).take(m as int);
    proof {
        use_type_invariant(acc);
        acc.lemma_inv();
        vstd::arithmetic::power2::lemma_pow2_pos(m as nat);
    }
    if n == 0 {
        proof {
            crate::sample::lemma_lens_total(acc@);
            assert(valid13(hand_lens(acc@)));
            assert(hands_from(acc@, l, 0) == set![acc@]);
        }
        let mut k: usize = 0;
        while k < terms.len()
            invariant
                k <= terms.len(),
                valid13(hand_lens(acc@)),
                n == 0,
                pow2(m as nat) >= 1,
                l == card_seq(cards@).take(m as int),
                hands_from(acc@, l, 0) == set![acc@],
                forall|j: int| 0 <= j < k ==> !#[trigger] atom_holds(terms@[j].atom, acc@),
            decreases terms.len() - k,
        {
            if terms[k].atom.satisfies(acc) {
                proof {
                    assert(atom_holds(terms@[k as int].atom, acc@));
                    assert(in_union(terms@, acc@));
                    assert(counted(terms@, acc@, l, 0) =~= set![acc@]);
                }
                return 1;
            }
            k = k + 1;
        }
        proof {
            assert(!in_union(terms@, acc@));
            assert(counted(terms@, acc@, l, 0) =~= Set::<Set<int>>::empty());
        }
        return 0;
    }
    if m < n {
        proof {
            lemma_hands_from_short(acc@, l, n as nat);
            assert(counted(terms@, acc@, l, n as nat) =~= Set::<Set<int>>::empty());
        }
        return 0;
    }
    let c = cards[m - 1];
    proof {
        assert(card_seq(cards@)[m - 1] == c@);
        assert forall|i: int| 0 <= i < m - 1 implies !acc@.insert(c@).contains(#[trigger] card_seq(cards@)[i]) by {
            assert(card_seq(cards@)[i] != card_seq(cards@)[m - 1]);
        }
    }
    let r1 = count_from(terms, acc, cards, m - 1, n);
    let r2 = count_from(terms, acc.with(c), cards, m - 1, n - 1);
    proof {
        assert forall|i: int| 0 <= i < l.len() implies !acc@.contains(#[trigger] l[i]) by {
            assert(l[i] == card_seq(cards@)[i]);
        }
        assert(l.no_duplicates()) by {
            assert forall|i: int, j: int| 0 <= i < l.len() && 0 <= j < l.len() && i != j implies l[i] != l[j] by {
                assert(l[i] == card_seq(cards@)[i]);
                assert(l[j] == card_seq(cards@)[j]);
            }
        }
        lemma_split(acc@, l, n as nat, union_pred(terms@));
        assert(l.drop_last() =~= card_seq(cards@).take(m - 1));
        assert(l.last() == c@);
        lemma_pow2_step(m as nat);
    }
    r1 + r2
}

/// A prepared sampler for one constraint, pool and fixed part.
pub struct Sampler {
    dnf: Dnf,
    pool: Hand,
    fixed: Hand,
    exact: bool,
    constraint: Ghost<HandConstraint>,
}

impl Sampler {
    /// What every sampler keeps: `pool` and `fixed` are disjoint, `fixed` has at most 13
    /// cards, the DNF holds where the constraint does, and an exact sampler has no custom
    /// literal and no residual.
    #[verifier::type_invariant]
    closed spec fn inv(self) -> bool {
        &&& self.pool@.disjoint(self.fixed@)
        &&& self.fixed@.len() <= 13
        &&& forall|h: Set<int>, cv: Seq<bool>| dnf_domain(self.constraint@, h) ==> #[trigger] dnf_holds(self.dnf, h, cv) == holds(self.constraint@, h, cv)
        &&& self.exact ==> terms_plain(self.dnf.terms@)
    }

    /// The constraint the sampler was prepared for.
    pub closed spec fn constraint_spec(&self) -> HandConstraint {
        self.constraint@
    }

    /// The DNF of the constraint.
    pub closed spec fn dnf_spec(&self) -> Dnf {
        self.dnf
    }

    /// The pool the sampler draws from.
    pub closed spec fn pool_spec(&self) -> Hand {
        self.pool
    }

    /// The fixed part every sampled hand contains.
    pub closed spec fn fixed_spec(&self) -> Hand {
        self.fixed
    }

    /// Whether no literal needs rejection.
    pub closed spec fn exact_spec(&self) -> bool {
        self.exact
    }

    /// Prepares a sampler for hands `h` with `fixed ⊆ h ⊆ fixed ∪ pool`, `|h| = 13`,
    /// satisfying `constraint`.
    ///
    /// The checks come in this order: `pool ∩ fixed` must be empty, `fixed` must have at most
    /// 13 cards, and a constraint with a custom predicate needs `allow_rejection`.
    pub fn prepare(constraint: &HandConstraint, pool: Hand, fixed: Hand, opts: &SampleOptions) -> (r: Result<Sampler, PrepareError>)
        ensures
            (r == Result::<Sampler, PrepareError>::Err(PrepareError::Overlap)) <==> !pool@.disjoint(fixed@),
            (r matches Result::Err(PrepareError::TooManyFixed(n)) && n == fixed@.len()) <==> (pool@.disjoint(fixed@) && fixed@.len() > 13),
            (r == Result::<Sampler, PrepareError>::Err(PrepareError::NotSamplable)) <==> (pool@.disjoint(fixed@) && fixed@.len() <= 13 && !no_custom(*constraint) && !opts.allow_rejection),
            r matches Result::Ok(s) ==> {
                &&& s.pool_spec() == pool
                &&& s.fixed_spec() == fixed
                &&& s.constraint_spec() == *constraint
                &&& forall|h: Set<int>, cv: Seq<bool>| dnf_domain(*constraint, h) ==> #[trigger] dnf_holds(s.dnf_spec(), h, cv) == holds(*constraint, h, cv)
                &&& s.exact_spec() == (terms_exact(s.dnf_spec().terms@, opts.extra_features as int) && !s.dnf_spec().truncated)
            },
    {
        if !pool.is_disjoint(fixed) {
            return Result::Err(PrepareError::Overlap);
        }
        let n = fixed.len();
        if n > 13 {
            return Result::Err(PrepareError::TooManyFixed(n));
        }
        if !constraint.is_samplable() && !opts.allow_rejection {
            return Result::Err(PrepareError::NotSamplable);
        }
        let dnf = match constraint.to_dnf(&DnfOptions::default()) {
            Result::Ok(d) => d,
            Result::Err(_) => {
                return Result::Err(PrepareError::NotSamplable);
            },
        };
        let extra = opts.extra_features as usize;
        let mut exact = !dnf.truncated;
        let mut i: usize = 0;
        while i < dnf.terms.len()
            invariant
                i <= dnf.terms.len(),
                exact == (!dnf.truncated && forall|k: int| 0 <= k < i ==> #[trigger] term_exact(dnf.terms@[k], extra as int)),
            decreases dnf.terms.len() - i,
        {
            let t = &dnf.terms[i];
            let ok = t.custom.len() == 0 && t.residual.is_none() && t.atom.eval.len() <= extra;
            proof {
                assert(ok == term_exact(dnf.terms@[i as int], extra as int));
                if exact && ok {
                    assert forall|k: int| 0 <= k < i + 1 implies #[trigger] term_exact(dnf.terms@[k], extra as int) by {
                        if k < i {
                            assert(term_exact(dnf.terms@[k], extra as int));
                        }
                    }
                }
            }
            exact = exact && ok;
            i = i + 1;
        }
        proof {
            if exact {
                assert forall|i: int| 0 <= i < dnf.terms@.len() implies (#[trigger] dnf.terms@[i]).custom@.len() == 0 && dnf.terms@[i].residual is None by {
                    assert(term_exact(dnf.terms@[i], extra as int));
                }
            }
        }
        Result::Ok(Sampler { dnf, pool, fixed, exact, constraint: Ghost(*constraint) })
    }

    /// Number of hands in the union of the terms: the 13-card hands `h` with
    /// `fixed ⊆ h ⊆ fixed ∪ pool` that satisfy the exactly-samplable part of some term. For an
    /// exact sampler these are the hands that satisfy the constraint, among the hands on which
    /// the metrics that the constraint constrains are within their bounds.
    ///
    /// Every choice of the missing cards from the pool is visited, so the cost grows with the
    /// number of such choices.
    pub fn count(&self) -> (r: u64)
        ensures
            r == union_between(self.dnf_spec().terms@, self.fixed_spec()@, self.pool_spec()@).len(),
            self.exact_spec() ==> forall|h: Set<int>, cv: Seq<bool>|
                #![trigger holds(self.constraint_spec(), h, cv)]
                hands_between(self.fixed_spec()@, self.pool_spec()@).contains(h) && bounded(self.constraint_spec(), h) ==>
                (union_between(self.dnf_spec().terms@, self.fixed_spec()@, self.pool_spec()@).contains(h)
                    <==> holds(self.constraint_spec(), h, cv)),
    {
        proof {
            use_type_invariant(self);
            use_type_invariant(self.fixed);
            use_type_invariant(self.pool);
            self.fixed.lemma_inv();
            self.pool.lemma_inv();
        }
        let cards = self.pool.cards();
        let need = 13 - self.fixed.len() as usize;
        let ghost l = card_seq(cards@);
        proof {
            crate::sample::lemma_asc_below(self.pool@, 52);
            assert(l == crate::holding::asc_below(self.pool@, 52));
            l.unique_seq_to_set();
            assert(l.to_set() =~= self.pool@);
            assert(cards.len() <= 52);
            lemma_hands_between(self.fixed@, self.pool@, l);
            assert(l.take(cards.len() as int) =~= l);
            assert forall|i: int| 0 <= i < cards.len() implies !self.fixed@.contains(#[trigger] card_seq(cards@)[i]) by {
                assert(self.pool@.contains(l[i]));
            }
            assert(counted(self.dnf.terms@, self.fixed@, l, need as nat) == union_between(self.dnf.terms@, self.fixed@, self.pool@));
            if self.exact {
                assert forall|h: Set<int>, cv: Seq<bool>|
                    #![trigger holds(self.constraint@, h, cv)]
                    hands_between(self.fixed@, self.pool@).contains(h) && bounded(self.constraint@, h) implies
                    (union_between(self.dnf.terms@, self.fixed@, self.pool@).contains(h)
                        <==> holds(self.constraint@, h, cv)) by {
                    let ts = self.dnf.terms@;
                    assert(h.subset_of(crate::hand::deck()));
                    crate::dnf::lemma_thirteen_card_domain(self.constraint@, h);
                    assert(dnf_holds(self.dnf, h, cv) == holds(self.constraint@, h, cv));
                    if in_union(ts, h) {
                        let k = choose|k: int| 0 <= k < ts.len() && #[trigger] atom_holds(ts[k].atom, h);
                        assert(term_holds(ts[k], h, cv));
                    }
                    if dnf_holds(self.dnf, h, cv) {
                        let k = choose|k: int| 0 <= k < ts.len() && #[trigger] term_holds(ts[k], h, cv);
                        assert(atom_holds(ts[k].atom, h));
                    }
                }
            }
        }
        count_from(&self.dnf.terms, self.fixed, &cards, cards.len(), need)
    }

    /// `true` when no literal needs rejection.
    pub fn is_exact(&self) -> (r: bool)
        ensures
            r == self.exact_spec(),
    {
        self.exact
    }

    /// The pool this sampler draws from.
    pub fn pool(&self) -> (h: Hand)
        ensures
            h == self.pool_spec(),
    {
        self.pool
    }

    /// The fixed part every sampled hand contains.
    pub fn fixed(&self) -> (h: Hand)
        ensures
            h == self.fixed_spec(),
    {
        self.fixed
    }
}

} // verus!
