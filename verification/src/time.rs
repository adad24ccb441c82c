//! Time bases and media clocks.

use vstd::prelude::*;

verus! {

/// Seconds per tick, as a fraction.
#[derive(Clone, Copy, Debug, PartialEq, Eq)]
pub struct TimeBase {
    /// The numerator.
    pub num: i64,
    /// The denominator.
    pub den: i64,
}

/// The magnitude of `x`.
pub open spec fn magnitude(x: int) -> int {
    if x < 0 {
        -x
    } else {
        x
    }
}

/// The integer nearest to `n / d`; a tie goes to the larger magnitude.
pub open spec fn nearest(n: int, d: int) -> int {
    let q = (2 * magnitude(n) + magnitude(d)) / (2 * magnitude(d));
    if (n < 0) != (d < 0) {
        -q
    } else {
        q
    }
}

/// `x`, or the end of the 64-bit range that it is past.
pub open spec fn clamped(x: int) -> i64 {
    if x < i64::MIN {
        i64::MIN
    } else if x > i64::MAX {
        i64::MAX
    } else {
        x as i64
    }
}

/// `ticks` of a clock with `base` seconds per tick, as ticks of a clock
/// that runs at `rate` ticks per second. A base without a denominator
/// gives 0.
pub open spec fn rescaled(ticks: i64, base: TimeBase, rate: u32) -> i64 {
    if base.den == 0 {
        0
    } else {
        clamped(nearest(ticks * base.num * rate, base.den as int))
    }
}

/// `oxideav_core::TimeBase::rescale`, towards a base of one over `rate`:
/// the nearest tick, ties away from zero, kept within 64 bits, and 0 for a
/// zero denominator.
#[verifier::external_body]
pub(crate) fn rescale_to_media_ts(ticks: i64, base: TimeBase, rate: u32) -> (r: i64)
    ensures
        r == rescaled(ticks, base, rate),
{
    oxideav_core::TimeBase::new(base.num, base.den).rescale(
        ticks,
        oxideav_core::TimeBase::from_rate(rate),
    )
}

} // verus!
