//! Pairwise Euclidean distance statistics and Ji & Gallo (2006) agreement
//! statistics over integer-scaled coordinates.
//!
//! The numeric kernel works on plain integers so that every result is stated
//! exactly: distances are floor square roots of exact squared distances, and
//! every quantity that involves a mean is returned as an exact ratio of
//! integers.  Callers that hold floating-point data quantize it to integers
//! before calling in, and interpret the returned ratios afterwards.

pub mod sums;
pub mod sqrt;
pub mod types;
pub mod distance;
pub mod agreement;

pub use crate::agreement::{gmfr, ssd, spod, spdu, spds};
pub use crate::types::{Ratio, StatError, SCALE, MAX_COORD, MAX_POINTS, MAX_DIMS, MAX_LEN};
pub use crate::distance::{PointSet, DistanceMatrix, distmat, d_bar, min_dists};
