//! Shared value types and input ranges: the error taxonomy, exact ratios of
//! integers, and the coordinate ranges within which every computation is
//! proved free of overflow.

use vstd::prelude::*;

verus! {

/// Fixed-point scale used for GMFR slopes: a slope `b` is reported as
/// `b_num / SCALE`.
pub const SCALE: i128 = 10_000;

/// Largest magnitude a coordinate or series value may have.
pub const MAX_COORD: i64 = 1_000_000;

/// Largest number of points in a point set.
pub const MAX_POINTS: usize = 10_000;

/// Largest number of feature columns in a point set.
pub const MAX_DIMS: usize = 10_000;

/// Largest length of a paired series.
pub const MAX_LEN: usize = 10_000;

/// Why a statistic could not be computed.
#[derive(Clone, Copy, Debug, PartialEq, Eq, Structural)]
pub enum StatError {
    /// The two inputs disagree on a dimension that must match: column counts
    /// of the two point sets, or lengths of the two series.
    DimensionMismatch,
    /// The input is too small for the statistic (fewer points or samples than
    /// the divisor needs), or a variance in a denominator is zero.
    DegenerateInput,
}

/// An exact ratio of integers; every producer ensures `den > 0`.
#[derive(Clone, Copy, Debug, PartialEq, Eq, Structural)]
pub struct Ratio {
    pub num: i128,
    pub den: i128,
}

/// A single value is within the accepted coordinate range.
pub open spec fn in_coord_range(x: i64) -> bool {
    -(MAX_COORD as int) <= x as int <= MAX_COORD as int
}

/// A series is short enough and all its values are in range.
pub open spec fn series_ok(s: Seq<i64>) -> bool {
    &&& s.len() <= MAX_LEN as int
    &&& forall|i: int| 0 <= i < s.len() ==> in_coord_range(#[trigger] s[i])
}

/// Runtime check that every value of a slice is within the coordinate range.
pub fn coords_in_range(s: &Vec<i64>) -> (b: bool)
    ensures
        b == (forall|i: int| 0 <= i < s@.len() ==> in_coord_range(#[trigger] s@[i])),
{
    let n = s.len();
    let mut i: usize = 0;
    while i < n
        invariant
            0 <= i <= n,
            n == s@.len(),
            forall|k: int| 0 <= k < i ==> in_coord_range(#[trigger] s@[k]),
        decreases n - i,
    {
        let v = s[i];
        if v < -MAX_COORD || v > MAX_COORD {
            return false;
        }
        i = i + 1;
    }
    true
}

/// Runtime check of `series_ok`.
pub fn series_check(s: &Vec<i64>) -> (b: bool)
    ensures
        b == series_ok(s@),
{
    if s.len() > MAX_LEN {
        return false;
    }
    coords_in_range(s)
}

} // verus!
