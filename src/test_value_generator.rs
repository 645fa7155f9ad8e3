use vstd::prelude::*;
use crate::interval::{Interval, INFINITY, NEG_INFINITY};

verus! {

/// The value a test uses for an interval: its lower end, its upper end when
/// only that is finite, zero when neither is.
pub open spec fn representative(i: Interval) -> i64 {
    if i.lo == NEG_INFINITY && i.hi == INFINITY {
        0
    } else if i.lo == NEG_INFINITY {
        i.hi
    } else {
        i.lo
    }
}

/// One concrete value to test with from the interval, or `None` when it is
/// empty.
pub fn test_value_for_interval(interval: &Interval) -> (r: Option<i64>)
    ensures
        r is None <==> interval.empty(),
        r matches Some(v) ==> v == representative(*interval),
{
    if interval.is_empty() {
        None
    } else if interval.lo == NEG_INFINITY && interval.hi == INFINITY {
        Some(0)
    } else if interval.lo == NEG_INFINITY {
        Some(interval.hi)
    } else {
        Some(interval.lo)
    }
}

} // verus!
