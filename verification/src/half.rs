//! Half-unit quantities (losers, quick tricks).

use vstd::prelude::*;
use crate::text::push_dec;

verus! {

/// A non-negative quantity in units of one half: `value = halves / 2`.
///
/// Used for losing-trick counts and quick tricks, which are conventionally counted in halves.
/// The derived `Ord` on the inner count is the numeric order.
#[derive(Clone, Copy, PartialEq, Eq, Structural, PartialOrd, Ord, Hash, Default, Debug)]
pub struct Half(u8);

impl View for Half {
    type V = int;

    /// The number of halves.
    closed spec fn view(&self) -> int {
        self.0 as int
    }
}

impl Half {
    /// Zero.
    pub fn zero() -> (r: Half)
        ensures
            r@ == 0,
    {
        Half(0)
    }

    /// `n / 2`.
    pub fn from_halves(n: u8) -> (r: Half)
        ensures
            r@ == n,
    {
        Half(n)
    }

    /// `n` whole units.
    pub fn from_whole(n: u8) -> (r: Half)
        requires
            n <= 127,
        ensures
            r@ == 2 * n,
    {
        Half(n * 2)
    }

    /// Number of halves.
    pub fn halves(self) -> (r: u8)
        ensures
            r == self@,
    {
        self.0
    }

    /// Whole part.
    pub fn whole(self) -> (r: u8)
        ensures
            r == self@ / 2,
    {
        self.0 / 2
    }

    /// `true` when there is a fractional half.
    pub fn is_half(self) -> (r: bool)
        ensures
            r == (self@ % 2 == 1),
    {
        self.0 % 2 == 1
    }

    /// Sum, saturating at 255 halves.
    pub fn add(self, other: Half) -> (r: Half)
        ensures
            r@ == if self@ + other@ > 255 {
                255
            } else {
                self@ + other@
            },
    {
        Half(self.0.saturating_add(other.0))
    }

    /// The whole part, then `.5` when there is a half: `2`, `2.5`.
    pub fn to_string(&self) -> (r: String)
        ensures
            r@ == crate::text::dec_text((self@ / 2) as nat) + if self@ % 2 == 1 {
                seq!['.', '5']
            } else {
                Seq::<char>::empty()
            },
    {
        let mut s = String::new();
        push_dec(&mut s, (self.0 / 2) as u64);
        if self.0 % 2 == 1 {
            s.push('.');
            s.push('5');
        }
        proof {
            assert(s@ =~= crate::text::dec_text((self@ / 2) as nat) + if self@ % 2 == 1 {
                seq!['.', '5']
            } else {
                Seq::<char>::empty()
            });
        }
        s
    }
}

} // verus!
