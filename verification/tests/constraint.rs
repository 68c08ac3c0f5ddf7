use bridge_engine::atom::{Atom, CardRequirement, EvalRequirement, Metric};
use bridge_engine::card::{Rank, Suit};
use bridge_engine::constraint::{CustomPred, HandConstraint};
use bridge_engine::dnf::{DnfError, DnfOptions, Overflow};
use bridge_engine::hand::Hand;
use bridge_engine::holding::Holding;
use bridge_engine::metrics::hcp;
use bridge_engine::shape_set::ShapeSet;

fn hand(s: &str) -> Hand {
    s.parse().unwrap()
}

/// 15–17 balanced.
fn one_notrump() -> HandConstraint {
    let mut a = Atom::any().with_hcp(15..=17);
    a.shapes = ShapeSet::balanced();
    HandConstraint::Atom(a)
}

fn five_spades() -> HandConstraint {
    HandConstraint::Atom(Atom::any().with_suit_len(Suit::Spades, 5..=13))
}

fn strong() -> Hand {
    // 16 HCP, 4-3-3-3.
    hand("AKQ2.K32.QJ2.J32")
}

fn weak_spades() -> Hand {
    // 6 HCP, six spades.
    hand("KQ8765.432.32.32")
}

#[test]
fn atoms_and_combinators() {
    assert_eq!(hcp(strong()), 16);
    assert!(one_notrump().satisfies(strong(), &[]));
    assert!(!one_notrump().satisfies(weak_spades(), &[]));
    assert!(five_spades().satisfies(weak_spades(), &[]));
    assert!(!five_spades().satisfies(strong(), &[]));

    let either = one_notrump().or(five_spades());
    assert!(either.satisfies(strong(), &[]));
    assert!(either.satisfies(weak_spades(), &[]));
    let both = one_notrump().and(five_spades());
    assert!(!both.satisfies(strong(), &[]));
    assert!(!both.satisfies(weak_spades(), &[]));
    let neither = either.duplicate().not();
    assert!(!neither.satisfies(strong(), &[]));
    assert!(HandConstraint::any().satisfies(strong(), &[]));

    // Flattening keeps the members at one level.
    match one_notrump().and(five_spades()).and(HandConstraint::any()) {
        HandConstraint::And(xs) => assert_eq!(xs.len(), 3),
        other => panic!("{other:?}"),
    }
    match one_notrump().or(five_spades()).or(HandConstraint::any()) {
        HandConstraint::Or(xs) => assert_eq!(xs.len(), 3),
        other => panic!("{other:?}"),
    }
}

#[test]
fn custom_predicates_take_their_values_from_the_caller() {
    let p = HandConstraint::Custom(CustomPred { name: "likes-hearts".to_string(), id: 1 });
    assert!(!p.is_samplable());
    assert!(one_notrump().is_samplable());
    assert!(!one_notrump().and(p.duplicate()).is_samplable());
    assert!(p.satisfies(strong(), &[false, true]));
    assert!(!p.satisfies(strong(), &[true, false]));
    // An id past the end of the results reads as `false`.
    assert!(!p.satisfies(strong(), &[true]));
    assert!(p.duplicate().not().satisfies(strong(), &[true]));
}

#[test]
fn card_and_eval_requirements() {
    let top = Holding::empty().with(Rank::Ace).with(Rank::King);
    let ak_spades = CardRequirement::in_suit(Suit::Spades, top, 2..=2);
    let c = HandConstraint::Atom(Atom::any().with_cards(ak_spades));
    assert!(c.satisfies(strong(), &[]));
    assert!(!c.satisfies(weak_spades(), &[]));
    let controls = EvalRequirement { metric: Metric::Controls, range: 4..=12 };
    let c = HandConstraint::Atom(Atom::any().with_eval(controls));
    // strong: SA SK HK = 2 + 1 + 1 = 4 controls.
    assert!(c.satisfies(strong(), &[]));
    assert!(!c.satisfies(weak_spades(), &[]));
}

#[test]
fn dnf_matches_the_constraint() {
    let c = one_notrump().or(five_spades()).and(five_spades().not().or(HandConstraint::any()));
    let d = c.to_dnf(&DnfOptions::default()).unwrap();
    assert!(!d.truncated);
    assert!(d.terms.len() <= 256);
    for h in [strong(), weak_spades(), hand("AKQJT.AKQ.AK.432"), hand("5432.5432.432.32")] {
        let by_terms = d.terms.iter().any(|t| t.satisfies(h, &[]));
        assert_eq!(by_terms, c.satisfies(h, &[]), "{}", h.to_string());
    }
    for t in &d.terms {
        assert!(t.is_exact());
    }
    // A negated atom expands into disjoint pieces.
    let n = one_notrump().not();
    let d = n.to_dnf(&DnfOptions::default()).unwrap();
    for h in [strong(), weak_spades()] {
        let hits = d.terms.iter().filter(|t| t.satisfies(h, &[])).count();
        assert_eq!(hits, if n.satisfies(h, &[]) { 1 } else { 0 });
    }
    // Custom literals become term literals, negated under `not`.
    let p = HandConstraint::Custom(CustomPred { name: "p".to_string(), id: 0 });
    let d = p.not().to_dnf(&DnfOptions::default()).unwrap();
    assert_eq!(d.terms.len(), 1);
    assert_eq!(d.terms[0].custom.len(), 1);
    assert!(d.terms[0].custom[0].1);
    assert!(!d.terms[0].is_exact());
    assert!(d.terms[0].satisfies(strong(), &[false]));
    assert!(!d.terms[0].satisfies(strong(), &[true]));
}

#[test]
fn dnf_cap_errors_or_leaves_residuals() {
    // (a1 | a2 | a3) & (b1 | b2 | b3) has 9 terms.
    let mut ors = Vec::new();
    for k in 0..2u8 {
        let mut alts = Vec::new();
        for l in 0..3u8 {
            let suit = Suit::from_index(k);
            alts.push(HandConstraint::Atom(Atom::any().with_suit_len(suit, l..=l)));
        }
        ors.push(HandConstraint::Or(alts));
    }
    let c = HandConstraint::And(ors);
    let full = c.to_dnf(&DnfOptions { max_terms: 9, on_overflow: Overflow::Error }).unwrap();
    assert_eq!(full.terms.len(), 9);
    assert!(!full.truncated);
    assert_eq!(
        c.to_dnf(&DnfOptions { max_terms: 8, on_overflow: Overflow::Error }).unwrap_err(),
        DnfError::TooLarge { estimated: 9, max_terms: 8 }
    );
    let cut = c.to_dnf(&DnfOptions { max_terms: 8, on_overflow: Overflow::Residual }).unwrap();
    assert!(cut.truncated);
    assert!(cut.terms.len() <= 8);
    assert!(cut.terms.iter().any(|t| t.residual.is_some()));
    for h in [strong(), weak_spades(), hand("AKQJT98765432..."), hand(".AKQJT98765432.."), hand("5432.5432.432.32")] {
        let by_terms = cut.terms.iter().any(|t| t.satisfies(h, &[]));
        assert_eq!(by_terms, c.satisfies(h, &[]));
    }
    assert_eq!(DnfOptions::default(), DnfOptions { max_terms: 256, on_overflow: Overflow::Residual });
}

#[test]
fn summaries_cover_every_satisfying_hand() {
    let c = one_notrump().or(HandConstraint::Atom(Atom::any().with_hcp(20..=21)));
    assert_eq!(c.hcp_range(), 15..=21);
    assert_eq!(c.shapes(), ShapeSet::balanced().union(ShapeSet::all()));
    assert_eq!(one_notrump().shapes(), ShapeSet::balanced());
    assert_eq!(one_notrump().suit_len(Suit::Hearts), 2..=5);
    assert_eq!(five_spades().suit_len(Suit::Spades), 5..=13);
    let none = HandConstraint::Or(Vec::new());
    assert!(none.hcp_range().is_empty());
    assert_eq!(none.shapes(), ShapeSet::empty());
    assert!(none.suit_len(Suit::Clubs).is_empty());
}

#[test]
fn dnf_matches_the_constraint_on_shapely_hands() {
    // At most two short-suit points (Goren 3-2-1), negated: the pieces must cover voids,
    // singletons and doubletons.
    let goren = bridge_engine::dist::DistMethod::goren_321();
    let few = EvalRequirement { metric: Metric::DistPoints(goren), range: 0..=2 };
    let c = HandConstraint::Atom(Atom::any().with_eval(few)).not().or(one_notrump());
    let d = c.to_dnf(&DnfOptions::default()).unwrap();
    for h in [
        hand("AKQJT98765432..."),
        hand("AKQJT.AKQ.AK.432"),
        hand("5432.5432.432.32"),
        hand("AK.QJT9.8765.432"),
        hand("A.KQJT.98765.432"),
        strong(),
        weak_spades(),
    ] {
        let by_terms = d.terms.iter().any(|t| t.satisfies(h, &[]));
        assert_eq!(by_terms, c.satisfies(h, &[]), "{}", h.to_string());
    }
    // Three alternatives fit a cap of three under the error policy.
    let alts: Vec<HandConstraint> =
        (0..3u8).map(|l| HandConstraint::Atom(Atom::any().with_suit_len(Suit::Spades, l..=l))).collect();
    let or = HandConstraint::Or(alts);
    assert_eq!(or.to_dnf(&DnfOptions { max_terms: 3, on_overflow: Overflow::Error }).unwrap().terms.len(), 3);
}
