//! The domain of robustness values.

use vstd::prelude::*;

verus! {

/// Robustness values are integers in `[NEG_INF, INF]`; the two ends stand for
/// minus and plus infinity. Only order and negation are used on them, so any
/// order-preserving, negation-preserving encoding of real values fits.
pub const INF: i64 = 0x7fff_ffff_ffff_ffff;

/// Minus infinity, the negation of `INF`.
pub const NEG_INF: i64 = -0x7fff_ffff_ffff_ffff;

/// Longest trace the library handles; twice it still fits in any `usize`.
pub const MAX_TRACE_LEN: usize = 0x3fff_ffff;

/// A value that can stand for a robustness (its negation is representable).
pub open spec fn in_range(v: int) -> bool {
    NEG_INF <= v <= INF
}

pub open spec fn min_spec(a: int, b: int) -> int {
    if a <= b { a } else { b }
}

pub open spec fn max_spec(a: int, b: int) -> int {
    if a >= b { a } else { b }
}

/// Smaller of two robustness values.
pub fn rmin(a: i64, b: i64) -> (r: i64)
    ensures
        r == min_spec(a as int, b as int),
{
    if a <= b { a } else { b }
}

/// Larger of two robustness values.
pub fn rmax(a: i64, b: i64) -> (r: i64)
    ensures
        r == max_spec(a as int, b as int),
{
    if a >= b { a } else { b }
}

} // verus!
