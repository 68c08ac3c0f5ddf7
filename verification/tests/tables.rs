use bridge_engine::metrics::SuitTables;

const ACE: usize = 1 << 12;
const KING: usize = 1 << 11;
const QUEEN: usize = 1 << 10;

#[test]
fn spot_checks() {
    let suit = SuitTables::build();
    let akq = ACE | KING | QUEEN;
    assert_eq!(suit.hcp[akq], 9);
    assert_eq!(suit.losers2[akq], 0);
    assert_eq!(suit.qt2[akq], 4);
    assert_eq!(suit.honors5[akq], 3);
    let kx = KING | 1;
    assert_eq!(suit.losers2[kx], 2);
    assert_eq!(suit.qt2[kx], 1);
    assert_eq!(suit.nltc2[kx], 3);
    assert_eq!(suit.losers2[0], 0);
    assert_eq!(suit.losers2[0b111], 6);
}
