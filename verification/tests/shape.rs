use bridge_engine::card::{Rank, Suit};
use bridge_engine::shape::{class_of, classes, shapes, Shape};
use bridge_engine::shape_set::{ShapeSet, MAX_HCP, MIN_HCP};

#[test]
fn tables_have_expected_sizes() {
    assert_eq!(shapes().len(), 560);
    assert_eq!(classes().len(), 39);
    assert_eq!(ShapeSet::all().len(), 560);
    assert_eq!(ShapeSet::balanced().len(), 28);
    assert_eq!(ShapeSet::semi_balanced().len(), 52);
}

#[test]
fn shape_index_is_a_bijection() {
    for (i, s) in shapes().iter().enumerate() {
        assert_eq!(s.total(), 13);
        assert_eq!(s.index() as usize, i, "{s:?}");
        assert_eq!(class_of(i as u16), s.class().index());
    }
}

#[test]
fn hcp_bounds_per_length() {
    assert_eq!(MAX_HCP[4], 10);
    assert_eq!(MIN_HCP[10], 1);
    assert_eq!(MIN_HCP[13], 10);
}

#[test]
fn hcp_bounds_match_brute_force() {
    let mut max = [0u8; 14];
    let mut min = [u8::MAX; 14];
    for bits in 0u16..8192 {
        let len = bits.count_ones() as usize;
        let hcp: u8 = (0..13u8)
            .filter(|r| (bits >> r) & 1 == 1)
            .map(|r| Rank::from_index(r).hcp())
            .sum();
        max[len] = max[len].max(hcp);
        min[len] = min[len].min(hcp);
    }
    assert_eq!(max, MAX_HCP);
    assert_eq!(min, MIN_HCP);
}

#[test]
fn projections() {
    for suit in Suit::ALL {
        assert_eq!(ShapeSet::balanced().suit_len(suit), Some(2..=5));
        assert_eq!(ShapeSet::all().suit_len(suit), Some(0..=13));
        assert_eq!(ShapeSet::empty().suit_len(suit), None);
    }
    assert_eq!(ShapeSet::balanced().classes().count_ones(), 3);
    assert_eq!(ShapeSet::all().classes(), (1u64 << 39) - 1);
    assert_eq!(ShapeSet::empty().classes(), 0);

    // The 13-card total tightens the loose ranges: D <= 13 - 2 - 4 - 3, S <= 13 - 2 - 4.
    let product = ShapeSet::from_suit_lens([(2, 5), (0, 13), (4, 4), (3, 13)]);
    let ranges = product.factor().expect("a product factors");
    assert_eq!(ranges, [2..=5, 0..=4, 4..=4, 3..=7]);
    let tight = ShapeSet::from_suit_lens([(2, 5), (0, 4), (4, 4), (3, 7)]);
    assert_eq!(product, tight);
    assert_eq!(product.factor(), Some([2..=5, 0..=4, 4..=4, 3..=7]));
    assert_eq!(ShapeSet::balanced().factor(), None);
    assert_eq!(ShapeSet::empty().factor(), None);
    assert_eq!(ShapeSet::all().factor(), Some([0..=13, 0..=13, 0..=13, 0..=13]));

    assert_eq!(ShapeSet::all().max_hcp(), 37);
    assert_eq!(ShapeSet::all().min_hcp(), 0);
    let six_six = ShapeSet::from_suit_lens([(6, 6), (6, 6), (0, 13), (0, 13)]);
    assert_eq!(six_six.len(), 2);
    assert_eq!(six_six.max_hcp(), 24);
    let thirteen = ShapeSet::empty().insert(Shape::new(13, 0, 0, 0));
    assert_eq!(thirteen.min_hcp(), 10);
    assert_eq!(thirteen.max_hcp(), 10);
    assert_eq!(ShapeSet::empty().min_hcp(), 0);
    assert_eq!(ShapeSet::empty().max_hcp(), 0);
}

#[test]
fn iteration_matches_len_and_contains() {
    for set in [
        ShapeSet::empty(),
        ShapeSet::all(),
        ShapeSet::balanced(),
        ShapeSet::semi_balanced(),
        ShapeSet::from_suit_len(Suit::Spades, 5, 13),
    ] {
        let members: Vec<Shape> = set.members();
        assert_eq!(members.len(), set.len() as usize);
        let mut it = set.iter();
        let mut n = 0usize;
        while it.next().is_some() {
            n += 1;
        }
        assert_eq!(n, set.len() as usize);
        let mut prev: Option<u16> = None;
        for s in &members {
            assert!(set.contains(*s));
            assert!(prev.is_none_or(|p| p < s.index()));
            prev = Some(s.index());
        }
        assert_eq!(set.complement().union(set), ShapeSet::all());
        assert!(set.complement().intersect(set).is_empty());
    }
    assert_eq!(ShapeSet::all().members().len(), 560);
}

#[test]
fn shape_table_is_in_club_diamond_heart_order_and_classes_are_inhabited() {
    let table = shapes();
    for w in table.windows(2) {
        let a = (w[0].len(Suit::Clubs), w[0].len(Suit::Diamonds), w[0].len(Suit::Hearts));
        let b = (w[1].len(Suit::Clubs), w[1].len(Suit::Diamonds), w[1].len(Suit::Hearts));
        assert!(a < b);
    }
    for c in classes() {
        let set = ShapeSet::from_class(c);
        assert!(!set.is_empty());
        assert_eq!(set.classes(), 1u64 << c.index());
    }
}

#[test]
fn classes_come_in_order_of_first_appearance_among_the_shapes() {
    let all = shapes();
    let mut firsts: Vec<usize> = Vec::new();
    for c in classes() {
        let first = all.iter().position(|s| s.class() == c).unwrap();
        // The first shape of a class has its lengths in ascending order.
        let lens = c.lens();
        assert_eq!(all[first], Shape::new(lens[3], lens[2], lens[1], lens[0]));
        firsts.push(first);
    }
    assert!(firsts.windows(2).all(|w| w[0] < w[1]));
    assert_eq!(firsts[0], 0);
}

#[test]
fn the_cursor_knows_how_many_members_remain() {
    let set = ShapeSet::balanced();
    let mut it = set.iter();
    let mut left = set.len() as usize;
    loop {
        assert_eq!(it.size_hint(), (left, Some(left)));
        if it.next().is_none() {
            break;
        }
        left -= 1;
    }
    assert_eq!(left, 0);
    assert_eq!(it.size_hint(), (0, Some(0)));
}
