//! Creating a bin.

use vstd::prelude::*;
use crate::state::Bin;

verus! {

/// A new bin: no liquidity and no fees earned, whatever its id.
pub fn handler(_bin_id: i32) -> (bin: Bin)
    ensures
        bin.liquidity == 0,
        bin.fee_growth_per_unit_a == 0,
        bin.fee_growth_per_unit_b == 0,
{
    Bin { liquidity: 0, fee_growth_per_unit_a: 0, fee_growth_per_unit_b: 0 }
}

} // verus!
