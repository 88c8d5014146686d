//! Fixed-point conventions.
//!
//! Scales are stored in millionths (`1.25` is `1_250_000`) and refresh
//! rates in microhertz (`59.94 Hz` is `59_940_000`). The tolerances below
//! are the compositor-facing tolerances expressed in those units.
use vstd::prelude::*;

verus! {

/// One whole scale factor, in millionths.
pub const SCALE_ONE: i64 = 1_000_000;

/// Tolerance when comparing scale values (`1e-4`).
pub const SCALE_EPS: i64 = 100;

/// Two advertised refresh rates closer than this are the same rate
/// (`1e-3 Hz`).
pub const REFRESH_EPS: i64 = 1_000;

/// Tolerance when re-matching a stored profile refresh rate (`0.05 Hz`).
pub const REFRESH_MATCH_EPS: i64 = 50_000;

/// Largest distance at which a requested scale snaps to a supported one
/// (`0.1`).
pub const SCALE_SNAP_RANGE: i64 = 100_000;

pub open spec fn abs_int(v: int) -> int {
    if v < 0 {
        -v
    } else {
        v
    }
}

/// `a` and `b` differ by at most `eps`.
pub open spec fn approx(a: int, b: int, eps: int) -> bool {
    abs_int(a - b) <= eps
}

/// Distance between two fixed-point values, without overflow.
pub fn distance(a: i64, b: i64) -> (r: i128)
    ensures
        r == abs_int(a - b),
{
    let d: i128 = a as i128 - b as i128;
    if d < 0 {
        -d
    } else {
        d
    }
}

/// `a` and `b` differ by at most `eps`.
pub fn approx_eq(a: i64, b: i64, eps: i64) -> (r: bool)
    ensures
        r == approx(a as int, b as int, eps as int),
{
    distance(a, b) <= eps as i128
}

/// `round(n / d)` with halves rounded away from zero, for a positive
/// divisor.
pub open spec fn round_div(n: int, d: int) -> int
    recommends
        d > 0,
{
    if n >= 0 {
        (2 * n + d) / (2 * d)
    } else {
        -((2 * (-n) + d) / (2 * d))
    }
}

/// Saturating conversion to the `i32` range (Rust's float-to-int `as`).
pub open spec fn saturate_i32(v: int) -> i32 {
    if v < i32::MIN {
        i32::MIN
    } else if v > i32::MAX {
        i32::MAX
    } else {
        v as i32
    }
}

pub fn saturate_i32_exec(v: i128) -> (r: i32)
    ensures
        r == saturate_i32(v as int),
{
    if v < i32::MIN as i128 {
        i32::MIN
    } else if v > i32::MAX as i128 {
        i32::MAX
    } else {
        v as i32
    }
}

} // verus!
