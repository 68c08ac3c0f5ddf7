use bridge_engine::call::Strain;
use bridge_engine::card::{Card, Suit};
use bridge_engine::dd_table::DdTable;
use bridge_engine::dds::{
    analyse_play, calc_dd_table, calc_dd_tables, dealer_par, info, init, is_available, solve_all_boards,
    solve_board, DdsConfig, DdsError, Mode, Position, Solutions, Target,
};
use bridge_engine::dds_convert::{holding, rank, remain_cards, seat, strain, suit, vulnerability};
use bridge_engine::deal::{Deal, DealError};
use bridge_engine::holding::Holding;
use bridge_engine::play::PlayHistory;
use bridge_engine::seat::{Seat, Vulnerability};

fn deal() -> Deal {
    "N:AKQ.234.AKQ.2345 J2.AKQJ.J.AKQJT9 T98.T98.T9876.87 76543.765.5432.6".parse().unwrap()
}

#[test]
fn encodings() {
    assert_eq!(suit(Suit::Spades), 0);
    assert_eq!(suit(Suit::Clubs), 3);
    assert_eq!(strain(Strain::NoTrump), 4);
    assert_eq!(strain(Strain::Hearts), 1);
    assert_eq!(strain(Strain::Clubs), 3);
    assert_eq!(seat(Seat::West), 3);
    assert_eq!(rank(0), 2);
    assert_eq!(rank(12), 14);
    assert_eq!(holding(Holding::from_bits(0b1).unwrap()), 0b100);
    assert_eq!(holding(Holding::full()), 0x1FFF << 2);
    assert_eq!(vulnerability(Vulnerability::Love), 0);
    assert_eq!(vulnerability(Vulnerability::Both), 1);
    assert_eq!(vulnerability(Vulnerability::NS), 2);
    assert_eq!(vulnerability(Vulnerability::EW), 3);
    let r = remain_cards(&deal());
    // North's spades AKQ: ranks 12, 11, 10 → bits 14, 13, 12.
    assert_eq!(r[0][0], (1 << 14) | (1 << 13) | (1 << 12));
    // West's clubs: the six.
    assert_eq!(r[3][3], 1 << 6);
    for row in r {
        assert_eq!(row.iter().map(|m| (m >> 2).count_ones()).sum::<u32>(), 13);
    }
}

#[test]
fn solver_calls_report_unavailable() {
    assert!(!is_available());
    let d = deal();
    assert_eq!(init(DdsConfig::default()), Err(DdsError::Unavailable));
    assert_eq!(calc_dd_table(&d), Err(DdsError::Unavailable));
    assert_eq!(calc_dd_tables(&[d]), Err(DdsError::Unavailable));
    let trick: [Card; 0] = [];
    let pos = Position { deal: &d, trump: Strain::Spades, leader: Seat::East, trick: &trick };
    assert_eq!(solve_board(&pos, Target::Max, Solutions::AllRanked, Mode::Auto), Err(DdsError::Unavailable));
    assert_eq!(solve_all_boards(&[(pos, Target::Tricks(7), Solutions::One, Mode::Search)]), Err(DdsError::Unavailable));
    assert_eq!(analyse_play(&d, &PlayHistory::new(Strain::NoTrump, Seat::East)), Err(DdsError::Unavailable));
    let t = DdTable::new([[7; 4]; 5]);
    assert_eq!(dealer_par(&t, Seat::North, Vulnerability::Love), Err(DdsError::Unavailable));
    assert_eq!(info(), Err(DdsError::Unavailable));
    let e: DdsError = DealError::Duplicate(Card::from_index(0).unwrap()).into();
    assert_eq!(e, DdsError::Deal(DealError::Duplicate(Card::from_index(0).unwrap())));
}
