//! The specification of `RangeInclusive::is_empty`.

use vstd::prelude::*;
use vstd::std_specs::cmp::PartialOrdIs;
use vstd::std_specs::cmp::PartialOrdSpec;
use core::ops::RangeInclusive;

verus! {

/// `RangeInclusive::is_empty` is true when the range was exhausted by iteration or its start
/// is not below or equal to its end (stated for bound types whose `<=` follows their
/// `partial_cmp` specification).
pub assume_specification<Idx: PartialOrd<Idx>>[ RangeInclusive::<Idx>::is_empty ](
    r: &RangeInclusive<Idx>,
) -> (ret: bool) where Idx: PartialOrd<Idx>
    ensures
        Idx::obeys_partial_cmp_spec() ==> ret == (r@.exhausted || !r@.start.is_le(&r@.end)),
;

} // verus!
