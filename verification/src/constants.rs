//! Fixed-point scales, limits and the listed pool parameters.

use vstd::prelude::*;

verus! {

/// One hundred percent, in basis points.
pub const BASIS_POINT_MAX: u128 = 10000;

/// The fixed-point scale of prices and of fee growth.
pub const PRECISION: u128 = 1_000_000_000_000;

/// The widest range, in bins, that a position is meant to cover.
pub const MAX_BINS_PER_POSITION: i32 = 500;

/// The pairs of bin step and fee rate that a pool may be created with.
pub const ALLOWED_PARAMETERS: [(u16, u16); 9] = [
    (1, 10),
    (5, 10),
    (20, 10),
    (20, 50),
    (50, 20),
    (50, 100),
    (100, 30),
    (100, 250),
    (200, 500),
];

} // verus!
