use std::convert::Infallible;

use bridge_engine::atom::Atom;
use bridge_engine::card::Suit;
use bridge_engine::constraint::{CustomPred, HandConstraint};
use bridge_engine::hand::Hand;
use bridge_engine::metrics::hcp;
use bridge_engine::sample::pick13_with;

/// A small xorshift generator.
struct XorShift(u64);

impl rand_core::TryRng for XorShift {
    type Error = Infallible;

    fn try_next_u32(&mut self) -> Result<u32, Infallible> {
        Ok((self.try_next_u64()? >> 32) as u32)
    }

    fn try_next_u64(&mut self) -> Result<u64, Infallible> {
        let mut x = self.0;
        x ^= x << 13;
        x ^= x >> 7;
        x ^= x << 17;
        self.0 = x;
        Ok(x)
    }

    fn try_fill_bytes(&mut self, dst: &mut [u8]) -> Result<(), Infallible> {
        for b in dst.iter_mut() {
            *b = self.try_next_u64()? as u8;
        }
        Ok(())
    }
}

fn no_custom(_: Hand) -> Vec<bool> {
    Vec::new()
}

#[test]
fn sampled_hands_satisfy_the_constraint_and_avoid_the_excluded_cards() {
    let mut rng = XorShift(0x1234_5678_9ABC_DEF1);
    let excluded: Hand = "AKQJ.AKQJ..".parse().unwrap();
    let c = HandConstraint::Atom(Atom::any().with_hcp(5..=15));
    for _ in 0..20 {
        let h = c.sample(&mut rng, excluded, &no_custom).unwrap();
        assert_eq!(h.len(), 13);
        assert!(h.is_disjoint(excluded));
        assert!((5..=15).contains(&hcp(h)));
        assert!(c.satisfies(h, &[]));
    }
}

#[test]
fn custom_values_come_from_the_callback_and_an_impossible_constraint_gives_none() {
    let mut rng = XorShift(42);
    let p = HandConstraint::Custom(CustomPred { name: "long clubs".to_string(), id: 0 });
    let long_clubs = |h: Hand| vec![h.holding(Suit::Clubs).len() >= 4];
    let h = p.sample(&mut rng, Hand::empty(), &long_clubs).unwrap();
    assert!(h.holding(Suit::Clubs).len() >= 4);

    // Every card but twelve excluded: no 13-card hand is left.
    let twelve: Hand = "AKQJT98765432...".parse::<Hand>().unwrap().without("S2".parse().unwrap());
    let rest = twelve.complement();
    assert_eq!(HandConstraint::any().sample(&mut rng, rest, &no_custom), None);
    // No hand has 38 points: the search through the 105 hands of fifteen cards finds none.
    let fifteen: Hand = "AKQJT98765432.AK..".parse().unwrap();
    let never = HandConstraint::Atom(Atom::any().with_hcp(38..=40));
    assert_eq!(never.sample(&mut rng, fifteen.complement(), &no_custom), None);
}

#[test]
fn a_constraint_without_custom_predicates_finds_its_only_hand() {
    let mut rng = XorShift(7);
    // Twenty cards left: all spades and seven hearts; one hand holds thirteen spades.
    let twenty: Hand = "AKQJT98765432.AKQJT98..".parse().unwrap();
    let spades: Hand = "AKQJT98765432...".parse().unwrap();
    let c = HandConstraint::Atom(Atom::any().with_suit_len(Suit::Spades, 13..=13));
    assert_eq!(c.sample(&mut rng, twenty.complement(), &no_custom), Some(spades));
}

#[test]
fn draws_pick_cards_by_a_partial_shuffle() {
    let cards = Hand::full().cards();
    // Zero draws swap every position with itself: the first thirteen cards, the clubs.
    let clubs = pick13_with(&cards, [0; 13]);
    assert_eq!(clubs, "...AKQJT98765432".parse::<Hand>().unwrap());
    // A first draw of 51 swaps the first card with the last.
    let mut d = [0u64; 13];
    d[0] = 51;
    let h = pick13_with(&cards, d);
    assert!(h.contains("SA".parse().unwrap()));
    assert!(!h.contains("C2".parse().unwrap()));
    assert_eq!(h.len(), 13);
}

#[test]
fn sample_with_returns_the_first_accepted_candidate() {
    let c = HandConstraint::Atom(Atom::any().with_suit_len(Suit::Clubs, 0..=12));
    // Zero draws pick the thirteen lowest cards: all clubs, rejected.
    let mut second = [0u64; 13];
    second[0] = 13;
    let draws = vec![[0u64; 13], second];
    let h = c.sample_with(&draws, Hand::empty(), &no_custom).unwrap();
    assert!(h.contains("D2".parse().unwrap()));
    assert!(!h.contains("C2".parse().unwrap()));
    assert_eq!(h.len(), 13);
    assert_eq!(c.sample_with(&vec![[0u64; 13]], Hand::empty(), &no_custom), None);
    let all_but_twelve = "AKQJT98765432.AKQJT98765432.AKQJT98765432.AKQJT9876543".parse::<Hand>().unwrap();
    assert_eq!(HandConstraint::any().sample_with(&draws, all_but_twelve, &no_custom), None);
}
