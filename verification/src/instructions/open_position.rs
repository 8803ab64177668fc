//! Opening a position.

use vstd::prelude::*;
use vstd::arithmetic::div_mod::{lemma_fundamental_div_mod, lemma_mod_multiples_basic};
use crate::address::same_address;
use crate::errors::MyError;
use crate::state::{Address, Pool, Position};

verus! {

/// Whether a bin id lies on the pool's grid.
pub open spec fn on_grid(bin_id: i32, bin_step: u16) -> bool {
    bin_id as int % (bin_step as int) == 0
}

/// Why a position over `lower_bin_id..=upper_bin_id` cannot be opened, if
/// it cannot: the mints must be the pool's, the range must rise, the pool
/// must have a bin step, and both ends must lie on the pool's grid.
pub open spec fn refusal(pool: Pool, token_a_mint: Seq<u8>, token_b_mint: Seq<u8>, lower_bin_id: i32, upper_bin_id: i32) -> Option<MyError> {
    if pool.token_a_mint@ != token_a_mint || pool.token_b_mint@ != token_b_mint {
        Some(MyError::InvalidMint)
    } else if lower_bin_id >= upper_bin_id {
        Some(MyError::InvalidBinRange)
    } else if pool.bin_step == 0 {
        Some(MyError::InvalidBinStep)
    } else if !on_grid(lower_bin_id, pool.bin_step) || !on_grid(upper_bin_id, pool.bin_step) {
        Some(MyError::InvalidBinId)
    } else {
        None
    }
}

proof fn lemma_multiple_mirrors(x: int, d: int)
    requires
        d > 0,
        x % d == 0,
    ensures
        (-x) % d == 0,
{
    let q = x / d;
    lemma_fundamental_div_mod(x, d);
    assert(-x == (-q) * d) by (nonlinear_arith)
        requires
            x == d * q,
    ;
    lemma_mod_multiples_basic(-q, d);
}

proof fn lemma_mirrored_on_grid(x: int, d: int)
    requires
        d > 0,
    ensures
        (x % d == 0) == ((-x) % d == 0),
{
    if x % d == 0 {
        lemma_multiple_mirrors(x, d);
    }
    if (-x) % d == 0 {
        lemma_multiple_mirrors(-x, d);
    }
}

fn is_on_grid(bin_id: i32, bin_step: u16) -> (on: bool)
    requires
        bin_step > 0,
    ensures
        on == on_grid(bin_id, bin_step),
{
    let step: u64 = bin_step as u64;
    if bin_id >= 0 {
        (bin_id as u64) % step == 0
    } else {
        let up: u64 = (-(bin_id as i64)) as u64;
        proof {
            lemma_mirrored_on_grid(bin_id as int, bin_step as int);
        }
        up % step == 0
    }
}

/// Opens an empty position for `owner` over the bins from `lower_bin_id` to
/// `upper_bin_id` of a pool.
pub fn handler(
    pool: &Pool,
    pool_key: &Address,
    owner: &Address,
    position_mint: &Address,
    token_a_mint: &Address,
    token_b_mint: &Address,
    lower_bin_id: i32,
    upper_bin_id: i32,
) -> (r: Result<Position, MyError>)
    ensures
        match refusal(*pool, token_a_mint@, token_b_mint@, lower_bin_id, upper_bin_id) {
            Some(e) => r == Err::<Position, MyError>(e),
            None => r == Ok::<Position, MyError>(
                Position {
                    pool: *pool_key,
                    owner: *owner,
                    lower_bin_id,
                    upper_bin_id,
                    liquidity: 0,
                    position_mint: *position_mint,
                    fee_growth_snapshot_a: 0,
                    fee_growth_snapshot_b: 0,
                },
            ),
        },
        r matches Ok(position) ==> position.well_formed(),
{
    if !same_address(&pool.token_a_mint, token_a_mint) || !same_address(&pool.token_b_mint, token_b_mint) {
        return Err(MyError::InvalidMint);
    }
    if lower_bin_id >= upper_bin_id {
        return Err(MyError::InvalidBinRange);
    }
    if pool.bin_step == 0 {
        return Err(MyError::InvalidBinStep);
    }
    if !is_on_grid(lower_bin_id, pool.bin_step) || !is_on_grid(upper_bin_id, pool.bin_step) {
        return Err(MyError::InvalidBinId);
    }
    Ok(
        Position {
            pool: *pool_key,
            owner: *owner,
            lower_bin_id,
            upper_bin_id,
            liquidity: 0,
            position_mint: *position_mint,
            fee_growth_snapshot_a: 0,
            fee_growth_snapshot_b: 0,
        },
    )
}

} // verus!
