//! Double-dummy result tables.

use vstd::prelude::*;
use crate::call::Strain;
use crate::seat::Seat;

verus! {

/// Double-dummy tricks for every `(strain, declarer)` pair.
///
/// A plain data type: it is produced by a solver or read from records and consumed by
/// applications.
#[derive(Clone, Copy, PartialEq, Eq, Hash, Debug)]
pub struct DdTable {
    /// `tricks[strain][declarer]`.
    tricks: [[u8; 4]; 5],
}

impl DdTable {
    /// The raw `[strain][declarer]` array.
    pub closed spec fn table(self) -> [[u8; 4]; 5] {
        self.tricks
    }

    /// Tricks for strain index `s` and seat index `d`.
    pub open spec fn at(self, s: int, d: int) -> int {
        self.table()[s][d] as int
    }

    /// Builds a table from `[strain][declarer]` tricks (strain order clubs … notrump, seat
    /// order North … West).
    pub fn new(tricks: [[u8; 4]; 5]) -> (t: DdTable)
        ensures
            t.table() == tricks,
    {
        DdTable { tricks }
    }

    /// Tricks `declarer` makes in `strain`.
    pub fn tricks(&self, strain: Strain, declarer: Seat) -> (r: u8)
        ensures
            r == self.at(strain.idx(), declarer.idx()),
    {
        self.tricks[strain.index() as usize][declarer.index() as usize]
    }

    /// The raw `[strain][declarer]` array.
    pub fn as_array(&self) -> (r: [[u8; 4]; 5])
        ensures
            r == self.table(),
    {
        self.tricks
    }

    /// The best strain and trick count for `declarer` (highest tricks; ties resolved toward
    /// the higher-scoring strain, i.e. later in bidding order).
    pub fn best_for(&self, declarer: Seat) -> (r: (Strain, u8))
        ensures
            r.1 == self.at(r.0.idx(), declarer.idx()),
            forall|s: int| 0 <= s < 5 ==> self.at(s, declarer.idx()) <= r.1,
            forall|s: int| r.0.idx() < s < 5 ==> self.at(s, declarer.idx()) < r.1,
    {
        let d = declarer.index() as usize;
        let mut best: u8 = 0;
        let mut best_tricks: u8 = self.tricks[0][d];
        let mut s: u8 = 1;
        while s < 5
            invariant
                1 <= s <= 5,
                best < s,
                d == declarer.idx(),
                best_tricks == self.at(best as int, d as int),
                forall|k: int| 0 <= k < s ==> self.at(k, d as int) <= best_tricks,
                forall|k: int| best < k < s ==> self.at(k, d as int) < best_tricks,
            decreases 5 - s,
        {
            let t = self.tricks[s as usize][d];
            if t >= best_tricks {
                best = s;
                best_tricks = t;
            }
            s = s + 1;
        }
        (Strain::from_index(best), best_tricks)
    }
}

} // verus!
