//! Arithmetic that stops at the ends of a type's range.

use vstd::prelude::*;

verus! {

/// The nearest 64-bit number.
pub open spec fn clamped(value: int) -> i64 {
    if value > i64::MAX {
        i64::MAX
    } else if value < i64::MIN {
        i64::MIN
    } else {
        value as i64
    }
}

/// The nearest sum.
pub fn saturating_sum(a: i64, b: i64) -> (r: i64)
    ensures
        r == clamped(a + b),
{
    match a.checked_add(b) {
        Some(sum) => sum,
        None => if b >= 0 {
            i64::MAX
        } else {
            i64::MIN
        },
    }
}

/// The nearest difference.
pub fn saturating_difference(a: i64, b: i64) -> (r: i64)
    ensures
        r == clamped(a - b),
{
    match a.checked_sub(b) {
        Some(difference) => difference,
        None => if b >= 0 {
            i64::MIN
        } else {
            i64::MAX
        },
    }
}

} // verus!
