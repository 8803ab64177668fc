//! Asking a pool for the price at a bin.

use vstd::prelude::*;
use crate::errors::MyError;
use crate::math::{get_price_at_bin, price_at_bin};
use crate::state::Pool;

verus! {

/// The price at bin `bin_id` on the pool's curve.
pub fn handler(pool: &Pool, bin_id: i32) -> (r: Result<u128, MyError>)
    ensures
        r == price_at_bin(bin_id, pool.bin_step),
{
    get_price_at_bin(bin_id, pool.bin_step)
}

} // verus!
