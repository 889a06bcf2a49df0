//! Total comparison helpers: minimum, maximum and three-way clamping.

use vstd::prelude::*;

verus! {

/// The clamp of `i` to the interval `[min, max]`, testing the lower bound
/// first; when `min > max` the lower bound wins, as the executable
/// `clamp_between` does.
pub open spec fn spec_clamp(i: int, min: int, max: int) -> int {
    if i < min {
        min
    } else if i > max {
        max
    } else {
        i
    }
}

/// The smaller of the two arguments.
pub fn defined_min(v1: i64, v2: i64) -> (r: i64)
    ensures
        r == if v1 <= v2 { v1 } else { v2 },
{
    if v1 <= v2 {
        v1
    } else {
        v2
    }
}

/// The larger of the two arguments; on a tie the second is returned.
pub fn defined_max(v1: i64, v2: i64) -> (r: i64)
    ensures
        r == if v1 <= v2 { v2 } else { v1 },
{
    if v1 <= v2 {
        v2
    } else {
        v1
    }
}

/// Clamps `i` to `[min, max]`, checking the lower bound before the upper.
pub fn clamp_between(i: i64, min: i64, max: i64) -> (r: i64)
    ensures
        r == spec_clamp(i as int, min as int, max as int),
{
    if i < min {
        min
    } else if i > max {
        max
    } else {
        i
    }
}

} // verus!
