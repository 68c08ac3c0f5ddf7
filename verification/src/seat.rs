//! Seats, sides and vulnerability.

use vstd::prelude::*;

verus! {

/// A seat at the table, clockwise from North.
#[derive(Clone, Copy, PartialEq, Eq, Structural, Hash, PartialOrd, Ord, Debug)]
#[allow(missing_docs)]
pub enum Seat {
    North,
    East,
    South,
    West,
}

/// The seat with index `i` (`0..4`).
pub open spec fn seat_of(i: int) -> Seat {
    if i == 0 {
        Seat::North
    } else if i == 1 {
        Seat::East
    } else if i == 2 {
        Seat::South
    } else {
        Seat::West
    }
}

/// The dealer of board `number` under the standard schedule.
pub open spec fn board_dealer(number: int) -> Seat {
    seat_of((number + 3) % 4)
}

/// The vulnerability index of board `number` under the standard 16-board schedule.
pub open spec fn board_vulnerability_index(number: int) -> int {
    let i = (number + 15) % 16;
    (i / 4 + i % 4) % 4
}

impl Seat {
    /// All seats clockwise from North.
    pub const ALL: [Seat; 4] = [Seat::North, Seat::East, Seat::South, Seat::West];

    /// Index `0..4` of the seat.
    pub open spec fn idx(self) -> int {
        match self {
            Seat::North => 0,
            Seat::East => 1,
            Seat::South => 2,
            Seat::West => 3,
        }
    }

    /// The seat `n` places clockwise from this one.
    pub open spec fn after(self, n: int) -> Seat {
        seat_of((self.idx() + n) % 4)
    }

    /// The partnership of this seat.
    pub open spec fn side_of(self) -> Side {
        if self.idx() % 2 == 0 {
            Side::NS
        } else {
            Side::EW
        }
    }

    /// The seat with index `i` (`0..4`).
    pub fn from_index(i: u8) -> (s: Seat)
        requires
            i < 4,
        ensures
            s.idx() == i,
            s == seat_of(i as int),
    {
        match i {
            0 => Seat::North,
            1 => Seat::East,
            2 => Seat::South,
            _ => Seat::West,
        }
    }

    /// Index `0..4`.
    pub fn index(self) -> (r: u8)
        ensures
            r == self.idx(),
            r < 4,
    {
        match self {
            Seat::North => 0,
            Seat::East => 1,
            Seat::South => 2,
            Seat::West => 3,
        }
    }

    /// The seat `n` places clockwise from this one.
    pub fn offset(self, n: u8) -> (s: Seat)
        ensures
            s == self.after(n as int),
            s.idx() == (self.idx() + n) % 4,
    {
        Seat::from_index(((self.index() as u16 + n as u16) % 4) as u8)
    }

    /// Left-hand opponent (next to act).
    pub fn next(self) -> (s: Seat)
        ensures
            s == self.after(1),
    {
        self.offset(1)
    }

    /// Right-hand opponent.
    pub fn prev(self) -> (s: Seat)
        ensures
            s == self.after(3),
    {
        self.offset(3)
    }

    /// Partner.
    pub fn partner(self) -> (s: Seat)
        ensures
            s == self.after(2),
    {
        self.offset(2)
    }

    /// Left-hand opponent (alias of [`Seat::next`]).
    pub fn lho(self) -> (s: Seat)
        ensures
            s == self.after(1),
    {
        self.next()
    }

    /// Right-hand opponent (alias of [`Seat::prev`]).
    pub fn rho(self) -> (s: Seat)
        ensures
            s == self.after(3),
    {
        self.prev()
    }

    /// The partnership this seat belongs to.
    pub fn side(self) -> (s: Side)
        ensures
            s == self.side_of(),
    {
        if self.index() % 2 == 0 {
            Side::NS
        } else {
            Side::EW
        }
    }

    /// The dealer of a standard board number (board 1 → North, 2 → East, …).
    pub fn dealer_of_board(number: u16) -> (s: Seat)
        ensures
            s == board_dealer(number as int),
    {
        Seat::from_index(((number as u32 + 3) % 4) as u8)
    }

    /// PBN letter (`N E S W`).
    pub fn letter(self) -> (c: char)
        ensures
            c == seat_letter(self),
    {
        match self {
            Seat::North => 'N',
            Seat::East => 'E',
            Seat::South => 'S',
            Seat::West => 'W',
        }
    }
}

/// The PBN letter of a seat.
pub open spec fn seat_letter(s: Seat) -> char {
    match s {
        Seat::North => 'N',
        Seat::East => 'E',
        Seat::South => 'S',
        Seat::West => 'W',
    }
}

/// A partnership.
#[derive(Clone, Copy, PartialEq, Eq, Structural, Hash, Debug)]
pub enum Side {
    /// North–South.
    NS,
    /// East–West.
    EW,
}

impl Side {
    /// The two seats of this side.
    pub fn seats(self) -> (r: [Seat; 2])
        ensures
            r@ == (match self {
                Side::NS => seq![Seat::North, Seat::South],
                Side::EW => seq![Seat::East, Seat::West],
            }),
    {
        let r = match self {
            Side::NS => [Seat::North, Seat::South],
            Side::EW => [Seat::East, Seat::West],
        };
        proof {
            assert(r@ =~= (match self {
                Side::NS => seq![Seat::North, Seat::South],
                Side::EW => seq![Seat::East, Seat::West],
            }));
        }
        r
    }

    /// The opposing side.
    pub fn other(self) -> (s: Side)
        ensures
            s != self,
    {
        match self {
            Side::NS => Side::EW,
            Side::EW => Side::NS,
        }
    }

    /// Whether `seat` belongs to this side.
    pub fn contains(self, seat: Seat) -> (r: bool)
        ensures
            r == (seat.side_of() == self),
    {
        match (seat.side(), self) {
            (Side::NS, Side::NS) => true,
            (Side::EW, Side::EW) => true,
            _ => false,
        }
    }
}

/// Which sides are vulnerable.
#[derive(Clone, Copy, PartialEq, Eq, Structural, Hash, Debug)]
pub enum Vulnerability {
    /// Neither side ("Love" / "None").
    Love,
    /// North–South only.
    NS,
    /// East–West only.
    EW,
    /// Both sides ("All" / "Both").
    Both,
}

/// The vulnerability with index `i` (`0..4`).
pub open spec fn vulnerability_of(i: int) -> Vulnerability {
    if i == 0 {
        Vulnerability::Love
    } else if i == 1 {
        Vulnerability::NS
    } else if i == 2 {
        Vulnerability::EW
    } else {
        Vulnerability::Both
    }
}

/// A side is vulnerable exactly when both sides are, or when the vulnerability names that
/// side: North–South under `NS`, East–West under `EW`.
pub proof fn lemma_vulnerable_side(v: Vulnerability, side: Side)
    ensures
        v.vul(side) <==> (v == Vulnerability::Both || (v == Vulnerability::NS && side == Side::NS) || (
        v == Vulnerability::EW && side == Side::EW)),
        v == Vulnerability::Love ==> !v.vul(side),
        (v == Vulnerability::NS || v == Vulnerability::EW) ==> v.vul(Side::NS) != v.vul(Side::EW),
{
}

/// A seat is vulnerable exactly when its side is: East and West under `EW` and `Both`,
/// North and South under `NS` and `Both`.
pub proof fn lemma_vulnerable_seat(v: Vulnerability, seat: Seat)
    ensures
        v.vul(seat.side_of()) <==> (v == Vulnerability::Both || (v == Vulnerability::NS && (seat
            == Seat::North || seat == Seat::South)) || (v == Vulnerability::EW && (seat == Seat::East
            || seat == Seat::West))),
{
}

impl Vulnerability {
    /// Index `0..4`.
    pub open spec fn idx(self) -> int {
        match self {
            Vulnerability::Love => 0,
            Vulnerability::NS => 1,
            Vulnerability::EW => 2,
            Vulnerability::Both => 3,
        }
    }

    /// Whether `side` is vulnerable.
    pub open spec fn vul(self, side: Side) -> bool {
        match (self, side) {
            (Vulnerability::Both, _) => true,
            (Vulnerability::NS, Side::NS) => true,
            (Vulnerability::EW, Side::EW) => true,
            _ => false,
        }
    }

    /// The vulnerability with index `i` (`0..4`).
    pub fn from_index(i: u8) -> (v: Vulnerability)
        requires
            i < 4,
        ensures
            v.idx() == i,
            v == vulnerability_of(i as int),
    {
        match i {
            0 => Vulnerability::Love,
            1 => Vulnerability::NS,
            2 => Vulnerability::EW,
            _ => Vulnerability::Both,
        }
    }

    /// Index `0..4`.
    pub fn index(self) -> (r: u8)
        ensures
            r == self.idx(),
    {
        match self {
            Vulnerability::Love => 0,
            Vulnerability::NS => 1,
            Vulnerability::EW => 2,
            Vulnerability::Both => 3,
        }
    }

    /// The standard vulnerability of a board number (16-board cycle; board 0 behaves like 16).
    pub fn from_board_number(number: u16) -> (v: Vulnerability)
        ensures
            v == vulnerability_of(board_vulnerability_index(number as int)),
    {
        let i = ((number as u32 + 15) % 16) as u8;
        Vulnerability::from_index((i / 4 + i % 4) % 4)
    }

    /// Whether `side` is vulnerable.
    pub fn is_vulnerable_side(self, side: Side) -> (r: bool)
        ensures
            r == self.vul(side),
    {
        match (self, side) {
            (Vulnerability::Both, _) => true,
            (Vulnerability::NS, Side::NS) => true,
            (Vulnerability::EW, Side::EW) => true,
            _ => false,
        }
    }

    /// Whether `seat`'s side is vulnerable.
    pub fn is_vulnerable(self, seat: Seat) -> (r: bool)
        ensures
            r == self.vul(seat.side_of()),
    {
        self.is_vulnerable_side(seat.side())
    }
}

} // verus!
