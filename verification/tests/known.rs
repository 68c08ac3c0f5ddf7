use bridge_engine::call::Strain;
use bridge_engine::card::Card;
use bridge_engine::atom::Atom;
use bridge_engine::constraint::{CustomPred, HandConstraint};
use bridge_engine::hand::Hand;
use bridge_engine::known::{KnownCards, KnownCardsError};
use bridge_engine::play::PlayHistory;
use bridge_engine::sampler::{PrepareError, SampleOptions, Sampler};
use bridge_engine::seat::Seat;

fn hand(s: &str) -> Hand {
    s.parse().unwrap()
}

fn card(s: &str) -> Card {
    s.parse().unwrap()
}

#[test]
fn known_cards_validate() {
    let north = hand("AKQ2.K32.Q32.J32");
    let south = hand("J54.AQ4.AK4.AK54");
    let e = Hand::empty();
    let k = KnownCards::new([north, e, south, e]).unwrap();
    assert_eq!(k.known[0], north);
    assert_eq!(k.pool().len(), 26);
    assert_eq!(k.needed(Seat::North), 0);
    assert_eq!(k.needed(Seat::East), 13);

    // A seat with too many cards is reported first, with its count.
    let big = hand("AKQJT98765432.2..");
    assert_eq!(
        KnownCards::new([e, big, e, big]),
        Err(KnownCardsError::TooMany { seat: Seat::East, count: 14 })
    );
    // Otherwise the lowest card known for two seats.
    let west = hand("A...2");
    assert_eq!(
        KnownCards::new([north, e, e, west]),
        Err(KnownCardsError::Duplicate(card("C2")))
    );
}

#[test]
fn known_cards_accumulate() {
    let me = hand("AKQ2.K32.Q32.J32");
    let k = KnownCards::from_viewer(Seat::South, me);
    assert_eq!(k.known[2], me);
    assert_eq!(k.known[0], Hand::empty());
    assert_eq!(KnownCards::empty().pool(), Hand::full());
    let dummy = hand("J54.AQ4.AK4.AK4");
    let k = k.with_dummy(Seat::North, dummy);
    assert_eq!(k.known[0], dummy);
    assert_eq!(k.pool(), Hand::full().difference(me).difference(dummy));

    let mut play = PlayHistory::new(Strain::NoTrump, Seat::West);
    play.play(card("H5"), hand(".5..")).unwrap();
    play.play(card("H4"), dummy).unwrap();
    let k = k.with_play(&play);
    assert!(k.known[3].contains(card("H5")));
    assert_eq!(k.known[0], dummy);
    assert_eq!(k.needed(Seat::West), 12);
    let mut all = k.pool();
    for i in 0..4 {
        assert!(k.pool().is_disjoint(k.known[i]));
        all = all.union(k.known[i]);
    }
    assert_eq!(all, Hand::full());
}

#[test]
fn sampler_preparation_checks_its_inputs() {
    let c = HandConstraint::any();
    let opts = SampleOptions::default();
    assert_eq!(opts.max_tries, 256);
    assert_eq!(opts.extra_features, 1);
    assert_eq!(opts.burn_in, 256);
    assert!(opts.allow_rejection);

    let fixed = hand("AK...");
    let pool = Hand::full().difference(fixed);
    let s = Sampler::prepare(&c, pool, fixed, &opts).ok().unwrap();
    assert_eq!(s.pool(), pool);
    assert_eq!(s.fixed(), fixed);
    assert!(s.is_exact());

    assert_eq!(Sampler::prepare(&c, Hand::full(), fixed, &opts).err(), Some(PrepareError::Overlap));
    let fourteen = hand("AKQJT98765432.A..");
    assert_eq!(
        Sampler::prepare(&c, Hand::full().difference(fourteen), fourteen, &opts).err(),
        Some(PrepareError::TooManyFixed(14))
    );
    let p = HandConstraint::Custom(CustomPred { name: "p".to_string(), id: 0 });
    let strict = SampleOptions { allow_rejection: false, ..SampleOptions::default() };
    assert_eq!(Sampler::prepare(&p, pool, fixed, &strict).err(), Some(PrepareError::NotSamplable));
    let s = Sampler::prepare(&p, pool, fixed, &opts).ok().unwrap();
    assert!(!s.is_exact());
}

#[test]
fn sampler_count_is_the_number_of_hands_in_the_union_of_the_terms() {
    let opts = SampleOptions::default();
    // Eleven fixed cards (14 points) and five hearts to choose two from.
    let fixed = hand("AKQJT98765.A..");
    let pool = hand(".KQJT9..");
    let count = |c: &HandConstraint| Sampler::prepare(c, pool, fixed, &opts).ok().unwrap().count();
    assert_eq!(count(&HandConstraint::any()), 10);
    // At least 17 points: KQ, KJ, KT, K9 and QJ.
    let strong = HandConstraint::Atom(Atom::any().with_hcp(17..=37));
    assert_eq!(count(&strong), 5);
    let weak = HandConstraint::Atom(Atom::any().with_hcp(17..=37)).not();
    assert_eq!(count(&weak), 5);
    // Overlapping terms are counted once: 19 or more points (KQ only) lies inside 17 or more.
    let stronger = HandConstraint::Atom(Atom::any().with_hcp(19..=37));
    assert_eq!(count(&stronger), 1);
    assert_eq!(count(&HandConstraint::Or(vec![strong, stronger])), 5);
    // Thirteen fixed cards: the one hand, or none.
    let thirteen = hand("AKQJT98765432...");
    let s = Sampler::prepare(&HandConstraint::any(), Hand::full().difference(thirteen), thirteen, &opts).ok().unwrap();
    assert_eq!(s.count(), 1);
    let never = HandConstraint::Atom(Atom::any().with_hcp(0..=5));
    let s = Sampler::prepare(&never, Hand::full().difference(thirteen), thirteen, &opts).ok().unwrap();
    assert_eq!(s.count(), 0);
    // Too few cards in the pool: no hand.
    let s = Sampler::prepare(&HandConstraint::any(), hand(".KQ.."), fixed, &opts).ok().unwrap();
    assert_eq!(s.count(), 1);
    let s = Sampler::prepare(&HandConstraint::any(), hand(".K.."), fixed, &opts).ok().unwrap();
    assert_eq!(s.count(), 0);
}
