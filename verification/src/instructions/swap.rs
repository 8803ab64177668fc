//! Selling one token of a pool for the other.

use vstd::prelude::*;
use crate::address::same_address;
use crate::errors::MyError;
use crate::math::{copy_accounts, sale, swap_a_to_b, swap_b_to_a};
use crate::state::{Address, BinAccount, Pool};

verus! {

/// What a swap leaves behind: the pool and the accounts after it, what the
/// trader receives, and whether token A was sold.
pub struct Trade {
    pub pool: Pool,
    pub accounts: Seq<BinAccount>,
    pub amount_out: u64,
    pub a_to_b: bool,
}

/// Whether the two vaults are the pool's two vaults, one each.
pub open spec fn vaults_of(pool: Pool, source_vault: Seq<u8>, destination_vault: Seq<u8>) -> bool {
    ||| source_vault == pool.token_a_vault@ && destination_vault == pool.token_b_vault@
    ||| source_vault == pool.token_b_vault@ && destination_vault == pool.token_a_vault@
}

/// A swap of `amount_in` of the token minted by `source_mint`: token A is
/// sold where that is the pool's mint of token A, token B otherwise. The
/// walk's last bin becomes the active bin, the reserve of the token sold
/// grows by `amount_in` and the other shrinks by what is paid out.
pub open spec fn trade(
    pool: Pool,
    pool_key: Seq<u8>,
    source_mint: Seq<u8>,
    source_vault: Seq<u8>,
    destination_vault: Seq<u8>,
    accounts: Seq<BinAccount>,
    program_id: Seq<u8>,
    amount_in: u64,
    min_amount_out: u64,
) -> Result<Trade, MyError> {
    let a_to_b = source_mint == pool.token_a_mint@;
    if !vaults_of(pool, source_vault, destination_vault) {
        Err(MyError::InvalidVault)
    } else if amount_in == 0 {
        Err(MyError::ZeroAmount)
    } else {
        match sale(a_to_b, pool, pool_key, program_id, accounts, amount_in) {
            Err(e) => Err(e),
            Ok((after, amount_out, bin_id)) => {
                let reserve_in = if a_to_b { pool.reserves_a } else { pool.reserves_b };
                let reserve_out = if a_to_b { pool.reserves_b } else { pool.reserves_a };
                if amount_out < min_amount_out {
                    Err(MyError::SlippageExceeded)
                } else if reserve_in + amount_in > u64::MAX || reserve_out < amount_out {
                    Err(MyError::MathOverflow)
                } else {
                    Ok(
                        Trade {
                            pool: Pool {
                                active_bin_id: bin_id,
                                reserves_a: if a_to_b { (pool.reserves_a + amount_in) as u64 } else { (pool.reserves_a - amount_out) as u64 },
                                reserves_b: if a_to_b { (pool.reserves_b - amount_out) as u64 } else { (pool.reserves_b + amount_in) as u64 },
                                ..pool
                            },
                            accounts: after,
                            amount_out,
                            a_to_b,
                        },
                    )
                }
            },
        }
    }
}

/// Swaps `amount_in` of one token for at least `min_amount_out` of the
/// other. The accounts are those of the bins on the walk, from the active
/// bin on, in walk order. On success the result is what the trader receives
/// and whether token A was sold: `amount_in` is to move into the source
/// vault and the amount received out of the destination vault. On refusal
/// nothing has changed.
pub fn handler(
    pool: &mut Pool,
    pool_key: &Address,
    source_mint: &Address,
    source_vault: &Address,
    destination_vault: &Address,
    amount_in: u64,
    min_amount_out: u64,
    bin_accounts: &mut Vec<BinAccount>,
    program_id: &Address,
) -> (r: Result<(u64, bool), MyError>)
    ensures
        match trade(*old(pool), pool_key@, source_mint@, source_vault@, destination_vault@, old(bin_accounts)@, program_id@, amount_in, min_amount_out) {
            Ok(done) => {
                &&& r == Ok::<(u64, bool), MyError>((done.amount_out, done.a_to_b))
                &&& *final(pool) == done.pool
                &&& final(bin_accounts)@ == done.accounts
            },
            Err(e) => {
                &&& r == Err::<(u64, bool), MyError>(e)
                &&& *final(pool) == *old(pool)
                &&& final(bin_accounts)@ == old(bin_accounts)@
            },
        },
        r matches Ok((amount_out, a_to_b)) ==> {
            &&& amount_out >= min_amount_out
            &&& a_to_b == (source_mint@ == old(pool).token_a_mint@)
            &&& a_to_b ==> {
                &&& final(pool).active_bin_id < old(pool).active_bin_id
                &&& final(pool).reserves_a == old(pool).reserves_a + amount_in
                &&& final(pool).reserves_b == old(pool).reserves_b - amount_out
            }
            &&& !a_to_b ==> {
                &&& final(pool).active_bin_id > old(pool).active_bin_id
                &&& final(pool).reserves_b == old(pool).reserves_b + amount_in
                &&& final(pool).reserves_a == old(pool).reserves_a - amount_out
            }
        },
{
    let forward = same_address(source_vault, &pool.token_a_vault) && same_address(destination_vault, &pool.token_b_vault);
    let backward = same_address(source_vault, &pool.token_b_vault) && same_address(destination_vault, &pool.token_a_vault);
    if !forward && !backward {
        return Err(MyError::InvalidVault);
    }
    if amount_in == 0 {
        return Err(MyError::ZeroAmount);
    }
    let is_a_to_b = same_address(source_mint, &pool.token_a_mint);
    let mut staged = copy_accounts(bin_accounts);
    let (amount_out, final_active_bin_id) = if is_a_to_b {
        swap_a_to_b(pool, pool_key, amount_in, &mut staged, program_id)?
    } else {
        swap_b_to_a(pool, pool_key, amount_in, &mut staged, program_id)?
    };
    if amount_out < min_amount_out {
        return Err(MyError::SlippageExceeded);
    }
    let (reserve_in, reserve_out) = if is_a_to_b {
        (pool.reserves_a, pool.reserves_b)
    } else {
        (pool.reserves_b, pool.reserves_a)
    };
    let grown = match reserve_in.checked_add(amount_in) {
        Some(sum) => sum,
        None => { return Err(MyError::MathOverflow); },
    };
    let shrunk = match reserve_out.checked_sub(amount_out) {
        Some(rest) => rest,
        None => { return Err(MyError::MathOverflow); },
    };
    pool.active_bin_id = final_active_bin_id;
    if is_a_to_b {
        pool.reserves_a = grown;
        pool.reserves_b = shrunk;
    } else {
        pool.reserves_b = grown;
        pool.reserves_a = shrunk;
    }
    *bin_accounts = staged;
    Ok((amount_out, is_a_to_b))
}

} // verus!
