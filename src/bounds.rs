use vstd::prelude::*;

use std::ops::RangeInclusive;

verus! {

/// Relies on `RangeInclusive::start`: it returns the lower bound the range was built with.
pub assume_specification<Idx>[ RangeInclusive::<Idx>::start ](r: &RangeInclusive<Idx>) -> (s: &Idx)
    ensures
        *s == r@.start,
;

/// Relies on `RangeInclusive::end`: it returns the upper bound the range was built with.
pub assume_specification<Idx>[ RangeInclusive::<Idx>::end ](r: &RangeInclusive<Idx>) -> (e: &Idx)
    ensures
        *e == r@.end,
;

/// The lower bound of a clamping range.
pub open spec fn lo(b: RangeInclusive<i64>) -> int {
    b@.start as int
}

/// The upper bound of a clamping range.
pub open spec fn hi(b: RangeInclusive<i64>) -> int {
    b@.end as int
}

} // verus!
