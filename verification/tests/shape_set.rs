use bridge_engine::card::Suit;
use bridge_engine::holding::Holding;
use bridge_engine::shape::{classes, shapes, Shape, ShapeClass};
use bridge_engine::shape_set::ShapeSet;

#[test]
fn balanced_projections() {
    for suit in Suit::ALL {
        assert_eq!(ShapeSet::balanced().suit_len(suit), Some(2..=5));
        assert_eq!(ShapeSet::semi_balanced().suit_len(suit), Some(2..=6));
    }
    assert_eq!(ShapeSet::balanced().factor(), None);
    let classes = ShapeSet::balanced().classes();
    assert_eq!(classes.count_ones(), 3);
    for c in [ShapeClass::c4333(), ShapeClass::c4432(), ShapeClass::c5332()] {
        assert_ne!(classes & (1 << c.index()), 0);
    }
    assert_eq!(ShapeSet::balanced().min_hcp(), 0);
    assert_eq!(ShapeSet::balanced().max_hcp(), 37);
}

#[test]
fn factor_of_products() {
    let lens = [(2u8, 5u8), (3, 3), (0, 13), (5, 13)];
    let set = ShapeSet::from_suit_lens(lens);
    let ranges = set.factor().expect("a product factors");
    for (r, (lo, hi)) in ranges.iter().zip(lens) {
        assert!(lo <= *r.start() && *r.end() <= hi);
        assert!(r.start() <= r.end());
    }
    let bounds = ranges.clone().map(|r| (*r.start(), *r.end()));
    assert_eq!(ShapeSet::from_suit_lens(bounds), set);
    for suit in Suit::ALL {
        assert_eq!(set.suit_len(suit), Some(ranges[suit.index() as usize].clone()));
    }
    let one = ShapeSet::empty().insert(Shape::new(1, 3, 4, 5));
    assert_eq!(one.factor(), Some([1..=1, 3..=3, 4..=4, 5..=5]));
    let five_five = ShapeSet::from_suit_lens([(0, 13), (0, 13), (5, 5), (5, 5)])
        .union(ShapeSet::from_suit_lens([(5, 5), (5, 5), (0, 13), (0, 13)]));
    assert_eq!(five_five.factor(), None);
    assert_eq!(five_five.suit_len(Suit::Spades), Some(0..=5));
}

#[test]
fn hcp_bounds_detect_contradictions() {
    let six_six = ShapeSet::from_suit_lens([(6, 6), (6, 6), (0, 13), (0, 13)]);
    assert_eq!(six_six.max_hcp(), 24);
    assert_eq!(six_six.min_hcp(), 0);
    let solid = ShapeSet::empty().insert(Shape::new(0, 0, 0, 13));
    assert_eq!(solid.min_hcp(), 10);
    assert_eq!(solid.max_hcp(), 10);
    let long = ShapeSet::from_suit_len(Suit::Hearts, 10, 13);
    assert_eq!(long.min_hcp(), 1);
    assert_eq!(ShapeSet::all().max_hcp(), 37);
    assert_eq!(ShapeSet::empty().max_hcp(), 0);
    assert_eq!(ShapeSet::empty().min_hcp(), 0);
}

#[test]
fn iteration_count_equals_len() {
    for class in classes() {
        let set = ShapeSet::from_class(class);
        let members = set.members();
        assert_eq!(members.len(), set.len() as usize);
        assert!(members.iter().all(|s| s.class() == class));
        assert_eq!(set.classes(), 1 << class.index());
    }
    for (lo, hi) in [(0, 0), (5, 13), (4, 4), (7, 6)] {
        let set = ShapeSet::from_suit_len(Suit::Diamonds, lo, hi);
        let members = set.members();
        assert_eq!(members.len(), set.len() as usize);
        assert!(members.iter().all(|s| (lo..=hi).contains(&s.len(Suit::Diamonds))));
    }
    let filtered = ShapeSet::filter(|s| s.longest() >= 7);
    assert_eq!(filtered.members().len(), filtered.len() as usize);
    assert!(filtered.members().iter().all(|s| s.longest() >= 7));
    assert_eq!(ShapeSet::all().members(), shapes());
}

#[test]
fn holding_submasks() {
    let akq: Holding = "AKQ".parse().unwrap();
    let subs: Vec<Holding> = akq.submasks();
    assert_eq!(subs.len(), 8);
    assert_eq!(subs[0], akq);
    assert_eq!(subs[7], Holding::empty());
    assert!(subs.windows(2).all(|w| w[0].bits() > w[1].bits()));
    assert!(subs.iter().all(|s| s.is_subset(akq)));
    assert_eq!(Holding::empty().submasks().len(), 1);
    assert_eq!(Holding::full().submasks().len(), 8192);
}

#[test]
fn words_round_trip_and_projections_agree_with_members() {
    for seed in [1u64, 0x9E37_79B9_7F4A_7C15, 0xDEAD_BEEF_0123_4567] {
        let mut w = [0u64; 9];
        let mut x = seed;
        for k in 0..9 {
            x ^= x << 13;
            x ^= x >> 7;
            x ^= x << 17;
            w[k] = x;
        }
        w[8] &= (1 << 48) - 1;
        let set = ShapeSet::from_words(w).unwrap();
        assert_eq!(set.words(), w);
        let members = set.members();
        assert_eq!(members.len(), set.len() as usize);
        assert!(members.windows(2).all(|p| p[0].index() < p[1].index()));
        for suit in Suit::ALL {
            match set.suit_len(suit) {
                None => assert!(set.is_empty()),
                Some(r) => {
                    assert!(members.iter().all(|s| r.contains(&s.len(suit))));
                    assert!(members.iter().any(|s| s.len(suit) == *r.start()));
                    assert!(members.iter().any(|s| s.len(suit) == *r.end()));
                }
            }
        }
        if let Some(r) = set.factor() {
            let bounds = r.map(|r| (*r.start(), *r.end()));
            assert_eq!(ShapeSet::from_suit_lens(bounds), set);
        }
        assert!(set.min_hcp() <= set.max_hcp());
        assert!(set.max_hcp() <= 37);
        let classes = set.classes();
        assert_eq!(classes >> 39, 0);
        assert!(members.iter().all(|s| classes & (1 << s.class().index()) != 0));
    }
    let mut bad = [0u64; 9];
    bad[8] = 1 << 48;
    assert_eq!(ShapeSet::from_words(bad), None);
}
