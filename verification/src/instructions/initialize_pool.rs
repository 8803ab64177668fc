//! Creating a pool.

use vstd::prelude::*;
use crate::constants::ALLOWED_PARAMETERS;
use crate::errors::MyError;
use crate::state::{Address, Pool};

verus! {

/// Whether a bin step and a fee rate are a listed pair.
pub open spec fn allowed(bin_step: u16, fee_rate: u16) -> bool {
    exists|i: int| 0 <= i < 9 && ALLOWED_PARAMETERS@[i] == (bin_step, fee_rate)
}

fn is_allowed_parameter(bin_step: u16, fee_rate: u16) -> (listed: bool)
    ensures
        listed == allowed(bin_step, fee_rate),
{
    let mut i: usize = 0;
    while i < 9
        invariant
            i <= 9,
            forall|k: int| 0 <= k < i ==> ALLOWED_PARAMETERS@[k] != (bin_step, fee_rate),
        decreases 9 - i,
    {
        let (bs, fr) = ALLOWED_PARAMETERS[i];
        if bs == bin_step && fr == fee_rate {
            return true;
        }
        i += 1;
    }
    false
}

/// Creates a pool with empty reserves, for a listed pair of bin step and fee
/// rate.
pub fn handler(
    bump: u8,
    token_a_mint: &Address,
    token_b_mint: &Address,
    token_a_vault: &Address,
    token_b_vault: &Address,
    bin_step: u16,
    fee_rate: u16,
    initial_bin_id: i32,
) -> (r: Result<Pool, MyError>)
    ensures
        !allowed(bin_step, fee_rate) ==> r == Err::<Pool, MyError>(MyError::InvalidParameters),
        allowed(bin_step, fee_rate) ==> r == Ok::<Pool, MyError>(
            Pool {
                bump,
                token_a_mint: *token_a_mint,
                token_b_mint: *token_b_mint,
                token_a_vault: *token_a_vault,
                token_b_vault: *token_b_vault,
                active_bin_id: initial_bin_id,
                bin_step,
                fee_rate,
                reserves_a: 0,
                reserves_b: 0,
            },
        ),
        r matches Ok(pool) ==> pool.well_formed(),
{
    if !is_allowed_parameter(bin_step, fee_rate) {
        return Err(MyError::InvalidParameters);
    }
    Ok(
        Pool {
            bump,
            token_a_mint: *token_a_mint,
            token_b_mint: *token_b_mint,
            token_a_vault: *token_a_vault,
            token_b_vault: *token_b_vault,
            active_bin_id: initial_bin_id,
            bin_step,
            fee_rate,
            reserves_a: 0,
            reserves_b: 0,
        },
    )
}

} // verus!
