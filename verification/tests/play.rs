use bridge_engine::call::Strain;
use bridge_engine::card::{Card, Suit};
use bridge_engine::hand::Hand;
use bridge_engine::play::{PlayError, PlayHistory};
use bridge_engine::seat::{Seat, Side};

fn card(s: &str) -> Card {
    s.parse().unwrap()
}

/// A hand holding just `c`.
fn only(c: &str) -> Hand {
    Hand::empty().with(card(c))
}

fn play_all(history: &mut PlayHistory, cards: &[&str]) {
    for c in cards {
        history.play(card(c), only(c)).unwrap();
    }
}

#[test]
fn trump_beats_led_suit_and_off_suit_never_wins() {
    let mut h = PlayHistory::new(Strain::Hearts, Seat::North);
    play_all(&mut h, &["S5", "SA", "H2", "SK"]);
    assert_eq!(h.trick_winner(0), Some(Seat::South));
    assert_eq!(h.trick_leader(1), Seat::South);
    assert_eq!(h.next_to_play(), Seat::South);
    assert_eq!(h.tricks_won(Side::NS), 1);
    assert_eq!(h.tricks_won(Side::EW), 0);

    let mut h = PlayHistory::new(Strain::NoTrump, Seat::North);
    play_all(&mut h, &["S5", "SA", "H2", "SK"]);
    assert_eq!(h.trick_winner(0), Some(Seat::East));
    assert_eq!(h.next_to_play(), Seat::East);

    let mut h = PlayHistory::new(Strain::NoTrump, Seat::North);
    play_all(&mut h, &["S5", "HA", "S6", "S2"]);
    assert_eq!(h.trick_winner(0), Some(Seat::South));

    let mut h = PlayHistory::new(Strain::Clubs, Seat::West);
    play_all(&mut h, &["D9", "C2", "CT", "DA"]);
    assert_eq!(h.trick_winner(0), Some(Seat::East));
    assert_eq!(h.trick_leader(1), Seat::East);
    play_all(&mut h, &["H3", "D5", "H4", "S2"]);
    assert_eq!(h.trick_winner(1), Some(Seat::West));
    assert_eq!(h.tricks_won(Side::EW), 2);
    assert_eq!(h.cards().len(), 8);
}

#[test]
fn revokes_are_rejected() {
    let mut h = PlayHistory::new(Strain::NoTrump, Seat::North);
    h.play(card("SA"), only("SA")).unwrap();
    assert_eq!(h.led_suit(), Some(Suit::Spades));
    let east: Hand = "K2.A..".parse().unwrap();
    assert!(!h.is_legal(card("HA"), east));
    assert_eq!(h.play(card("HA"), east), Err(PlayError::Revoke { led: Suit::Spades }));
    assert_eq!(h.cards().len(), 1);
    assert!(h.is_legal(card("S2"), east));
    h.play(card("S2"), east).unwrap();

    let south: Hand = ".KQ.J.".parse().unwrap();
    assert!(h.is_legal(card("HK"), south));
    h.play(card("DJ"), south).unwrap();

    let west: Hand = "A.5..".parse().unwrap();
    assert!(h.is_legal(card("H5"), west));
    h.play(card("H5"), west).unwrap();
    assert_eq!(h.trick_winner(0), Some(Seat::North));
    assert_eq!(h.current_trick(), &[]);
    assert_eq!(h.led_suit(), None);
}

#[test]
fn other_errors() {
    let mut h = PlayHistory::new(Strain::Spades, Seat::East);
    let east: Hand = "AK.2..".parse().unwrap();
    assert_eq!(h.play(card("SQ"), east), Err(PlayError::NotHeld(card("SQ"))));
    h.play(card("SA"), east).unwrap();
    assert_eq!(h.play(card("SA"), east), Err(PlayError::AlreadyPlayed(card("SA"))));
    assert_eq!(h.next_to_play(), Seat::South);
    assert_eq!(h.seat_at(0), Seat::East);
    assert_eq!(h.seat_at(3), Seat::North);
    assert_eq!(PlayError::Revoke { led: Suit::Hearts }.to_string(), "must follow suit H");
}

#[test]
fn tricks_view_and_played_by() {
    let mut h = PlayHistory::new(Strain::Diamonds, Seat::South);
    assert_eq!(h.tricks().len(), 0);
    play_all(&mut h, &["C3", "C4", "C5"]);
    let tricks = h.tricks();
    assert_eq!(tricks.len(), 1);
    assert_eq!(tricks[0].leader, Seat::South);
    assert_eq!(tricks[0].cards, [Some(card("C3")), Some(card("C4")), Some(card("C5")), None]);
    assert_eq!(tricks[0].winner, None);
    assert_eq!(h.trick_winner(0), None);
    assert_eq!(h.current_trick().len(), 3);
    h.play(card("D2"), only("D2")).unwrap();
    let tricks = h.tricks();
    assert_eq!(tricks.len(), 1);
    assert_eq!(tricks[0].winner, Some(Seat::East));
    play_all(&mut h, &["HA"]);
    assert_eq!(h.tricks().len(), 2);
    assert_eq!(h.tricks()[1].leader, Seat::East);
    assert_eq!(h.played_by(Seat::South), Hand::empty().with(card("C3")));
    assert_eq!(h.played_by(Seat::East), Hand::empty().with(card("D2")).with(card("HA")));
    assert_eq!(h.played_by(Seat::West), Hand::empty().with(card("C4")));
    assert_eq!(h.played(), "..2.543".parse::<Hand>().unwrap().with(card("HA")));
    assert_eq!(h.trump(), Strain::Diamonds);
    assert_eq!(h.leader(), Seat::South);
}

/// A whole deal played out with the lowest legal card each time.
#[test]
fn lowest_legal_cards_play_a_deal_to_the_end() {
    let deal: bridge_engine::deal::Deal =
        "N:AKQ.234.AKQ.2345 J2.AKQJ.J.AKQJT9 T98.T98.T9876.87 76543.765.5432.6".parse().unwrap();
    let mut h = PlayHistory::new(Strain::NoTrump, Seat::East);
    for _ in 0..52 {
        let seat = h.next_to_play();
        let remaining = deal.hand(seat).difference(h.played_by(seat));
        let legal: Vec<Card> = remaining.cards().into_iter().filter(|c| h.is_legal(*c, remaining)).collect();
        assert!(!legal.is_empty());
        if let Some(led) = h.led_suit() {
            if !remaining.holding(led).is_empty() {
                assert!(legal.iter().all(|c| c.suit() == led));
            }
        }
        h.play(legal[0], remaining).unwrap();
    }
    assert_eq!(h.cards().len(), 52);
    assert_eq!(h.tricks().len(), 13);
    assert!(h.tricks().iter().all(|t| t.winner.is_some()));
    assert_eq!(h.tricks_won(Side::NS) + h.tricks_won(Side::EW), 13);
    assert_eq!(h.played(), Hand::full());
    for seat in Seat::ALL {
        assert_eq!(h.played_by(seat), deal.hand(seat));
    }
    let any = Card::from_index(0).unwrap();
    assert_eq!(h.clone().play(any, Hand::full()), Err(PlayError::Complete));
    assert!(!h.is_legal(any, Hand::full()));
}
