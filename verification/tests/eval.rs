use bridge_engine::atom::{Atom, CardRequirement, EvalRequirement, Metric};
use bridge_engine::card::{Rank, Suit};
use bridge_engine::dist::{distribution_points, shape_points, total_points, DistMethod};
use bridge_engine::hand::Hand;
use bridge_engine::holding::Holding;
use bridge_engine::metrics::{controls, hcp, holding_hcp, losers, quick_tricks};

fn hand(s: &str) -> Hand {
    s.parse().unwrap()
}

fn samples() -> Vec<Hand> {
    ["AKQ2.K32.QJ2.J32", "KQ8765.432.32.32", "AKQJT98765432...", ".AK.QJT98765.432", "5432.5432.432.32"]
        .iter()
        .map(|s| hand(s))
        .collect()
}

#[test]
fn hcp_is_the_sum_over_the_suits() {
    for h in samples() {
        let by_suit: u8 = Suit::ALL.iter().map(|s| holding_hcp(h.holding(*s))).sum();
        assert_eq!(hcp(h), by_suit);
    }
    assert_eq!(hcp(hand("AKQ2.K32.QJ2.J32")), 16);
    assert_eq!(controls(hand("AKQ2.K32.QJ2.J32")), 4);
    assert_eq!(losers(hand("AKQ2.K32.QJ2.J32")).halves(), 14);
    assert_eq!(quick_tricks(hand("AKQ2.K32.QJ2.J32")).halves(), 5);
}

#[test]
fn shape_points_agree_with_distribution_points() {
    let methods = [DistMethod::goren_321(), DistMethod::dummy_531(), DistMethod::LongSuit];
    for h in samples() {
        for m in methods {
            assert_eq!(shape_points(h.shape(), m), Some(distribution_points(h, m)));
        }
        assert_eq!(shape_points(h.shape(), DistMethod::BergenStarting), None);
    }
    // 6-3-2-2: two doubletons.
    let h = hand("KQ8765.432.32.32");
    assert_eq!(distribution_points(h, DistMethod::goren_321()), 2);
    assert_eq!(total_points(h, DistMethod::goren_321()), 7);
}

#[test]
fn intersection_is_conjunction() {
    let a = Atom::any().with_hcp(10..=20);
    let b = Atom::any().with_suit_len(Suit::Spades, 4..=13);
    let both = a.intersect(&b);
    for h in samples() {
        assert_eq!(both.satisfies(h), a.satisfies(h) && b.satisfies(h));
    }
}

#[test]
fn negation_splits_the_complement_into_disjoint_atoms() {
    let top = Holding::empty().with(Rank::Ace);
    let a = Atom::any()
        .with_hcp(12..=18)
        .with_cards(CardRequirement::in_suit(Suit::Hearts, top, 1..=1))
        .with_eval(EvalRequirement { metric: Metric::Controls, range: 3..=12 });
    let parts = a.negate();
    assert!(parts.len() <= 3 + 2 * 2);
    for h in samples() {
        let hits = parts.iter().filter(|p| p.satisfies(h)).count();
        assert_eq!(hits, if a.satisfies(h) { 0 } else { 1 });
    }
}

#[test]
fn normalisation_keeps_the_meaning() {
    let mut a = Atom::any()
        .with_eval(EvalRequirement { metric: Metric::QuickTricks, range: 2..=40 })
        .with_eval(EvalRequirement { metric: Metric::Controls, range: 0..=30 })
        .with_hcp(0..=37);
    let before: Vec<bool> = samples().iter().map(|h| a.satisfies(*h)).collect();
    a.normalize();
    let after: Vec<bool> = samples().iter().map(|h| a.satisfies(*h)).collect();
    assert_eq!(before, after);
    assert!(Atom::any().with_hcp(5..=4).is_trivially_unsat());
}
