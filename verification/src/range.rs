//! Specifications of the accessors of `core::ops::RangeInclusive`.

use vstd::prelude::*;
use core::ops::RangeInclusive;

verus! {

/// `RangeInclusive::start` returns the lower bound the range was built with.
pub assume_specification<Idx>[ RangeInclusive::<Idx>::start ](r: &RangeInclusive<Idx>) -> (ret:
    &Idx)
    ensures
        *ret == r@.start,
;

/// `RangeInclusive::end` returns the upper bound the range was built with.
pub assume_specification<Idx>[ RangeInclusive::<Idx>::end ](r: &RangeInclusive<Idx>) -> (ret:
    &Idx)
    ensures
        *ret == r@.end,
;

/// `RangeInclusive::clone` copies a range (nothing is stated of the copy for a generic bound
/// type; the library rebuilds ranges with [`make_range`] where it needs to know them).
pub assume_specification<Idx: Clone>[ <RangeInclusive<Idx> as Clone>::clone ](
    r: &RangeInclusive<Idx>,
) -> RangeInclusive<Idx>;

/// `x` is a member of `r` (a range exhausted by iteration has no members).
pub open spec fn in_range(r: RangeInclusive<u8>, x: int) -> bool {
    !r@.exhausted && r@.start <= x <= r@.end
}

/// The bounds `(lo, hi)` of the members of `r`, or `None` when it has none.
pub fn range_bounds(r: &RangeInclusive<u8>) -> (b: Option<(u8, u8)>)
    ensures
        b is None <==> forall|x: int| !in_range(*r, x),
        b matches Some((lo, hi)) ==> lo <= hi && (forall|x: int| in_range(*r, x) <==> lo <= x <= hi)
            && r@.start == lo && r@.end == hi && !r@.exhausted,
{
    if r.is_empty() {
        proof {
            if !r@.exhausted {
                assert(!(r@.start <= r@.end));
            }
        }
        None
    } else {
        proof {
            assert(in_range(*r, r@.start as int));
        }
        Some((*r.start(), *r.end()))
    }
}

/// The range of the integers `lo..=hi` that are bytes (`1..=0`, empty, when there are none).
pub fn make_range(lo: i16, hi: i16) -> (r: RangeInclusive<u8>)
    ensures
        forall|x: int| 0 <= x < 256 ==> (in_range(r, x) <==> lo <= x <= hi),
        forall|x: int| in_range(r, x) ==> 0 <= x < 256,
        !r@.exhausted,
{
    let a: i16 = if lo < 0 {
        0
    } else {
        lo
    };
    let b: i16 = if hi > 255 {
        255
    } else {
        hi
    };
    if a > b {
        RangeInclusive::new(1, 0)
    } else {
        RangeInclusive::new(a as u8, b as u8)
    }
}

/// The inclusive range `lo..=hi` as built by `RangeInclusive::new`.
pub open spec fn is_range(r: RangeInclusive<u8>, lo: int, hi: int) -> bool {
    r@.start == lo && r@.end == hi && !r@.exhausted
}

} // verus!
