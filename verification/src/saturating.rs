//! Saturating integer arithmetic on fixed-point coordinates, with the
//! mathematical value each operation stands for.

use vstd::prelude::*;

verus! {

/// `x` clamped into the range of `i64`.
pub open spec fn clamp_i64(x: int) -> i64 {
    if x > i64::MAX {
        i64::MAX
    } else if x < i64::MIN {
        i64::MIN
    } else {
        x as i64
    }
}

/// `x` clamped into the range of `u64`.
pub open spec fn clamp_u64(x: int) -> u64 {
    if x > u64::MAX {
        u64::MAX
    } else if x < 0 {
        0
    } else {
        x as u64
    }
}

/// The absolute value of an integer.
pub open spec fn abs_int(x: int) -> int {
    if x < 0 {
        -x
    } else {
        x
    }
}

/// Saturating sum of two `i64` values.
pub fn sat_add_i64(x: i64, y: i64) -> (r: i64)
    ensures
        r == clamp_i64(x + y),
{
    match x.checked_add(y) {
        Some(v) => v,
        None => {
            if x > 0 {
                i64::MAX
            } else {
                i64::MIN
            }
        },
    }
}

/// Saturating product of two `i64` values.
pub fn sat_mul_i64(x: i64, y: i64) -> (r: i64)
    ensures
        r == clamp_i64(x * y),
{
    match x.checked_mul(y) {
        Some(v) => v,
        None => {
            if (x > 0) == (y > 0) {
                assert(x * y > 0) by (nonlinear_arith)
                    requires
                        (x > 0) == (y > 0),
                        x != 0,
                        y != 0,
                ;
                i64::MAX
            } else {
                assert(x * y < 0) by (nonlinear_arith)
                    requires
                        (x > 0) != (y > 0),
                        x != 0,
                        y != 0,
                ;
                i64::MIN
            }
        },
    }
}

/// Saturating distance between two `i64` values: `|x - y|`, clamped.
pub fn sat_dist_i64(x: i64, y: i64) -> (r: i64)
    ensures
        r == clamp_i64(abs_int(x - y)),
        r >= 0,
{
    if x >= y {
        match x.checked_sub(y) {
            Some(v) => v,
            None => i64::MAX,
        }
    } else {
        match y.checked_sub(x) {
            Some(v) => v,
            None => i64::MAX,
        }
    }
}

/// Saturating product of two `u64` values.
pub fn sat_mul_u64(x: u64, y: u64) -> (r: u64)
    ensures
        r == clamp_u64(x * y),
{
    match x.checked_mul(y) {
        Some(v) => v,
        None => u64::MAX,
    }
}

/// Saturating sum of two `u64` values.
pub fn sat_add_u64(x: u64, y: u64) -> (r: u64)
    ensures
        r == clamp_u64(x + y),
{
    x.saturating_add(y)
}

/// Distance between two `u64` values: `|x - y|`.
pub fn dist_u64(x: u64, y: u64) -> (r: u64)
    ensures
        r == abs_int(x - y),
{
    if x >= y {
        x - y
    } else {
        y - x
    }
}

/// Clamping keeps a value that fits and replaces one that does not by the
/// nearest bound; the absolute value is the value or its negation, never
/// negative.
pub proof fn law_clamp_and_abs(x: int)
    ensures
        i64::MIN <= x <= i64::MAX ==> clamp_i64(x) == x,
        x > i64::MAX ==> clamp_i64(x) == i64::MAX,
        x < i64::MIN ==> clamp_i64(x) == i64::MIN,
        0 <= x <= u64::MAX ==> clamp_u64(x) == x,
        x > u64::MAX ==> clamp_u64(x) == u64::MAX,
        x < 0 ==> clamp_u64(x) == 0,
        abs_int(x) >= 0,
        abs_int(x) == x || abs_int(x) == -x,
{
}

} // verus!
