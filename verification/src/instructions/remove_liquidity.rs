//! Withdrawing liquidity and fees from a position.

use vstd::prelude::*;
use crate::address::{address_view, bin_address, expected_bin_address, holds_address, same_address};
use crate::errors::MyError;
use crate::math::{accrued_fee, bin_count, calculate_accrued_fees, calculate_claimable_amounts, claimable_amounts, narrow};
use crate::state::{Address, BinAccount, Pool, Position};

verus! {

/// The fees that a position has earned over some bins, and the highest fee
/// growth seen on the way.
#[derive(Clone, Copy, Debug, PartialEq, Eq)]
pub struct Collected {
    pub fees_a: u64,
    pub fees_b: u64,
    pub fee_growth_a: u128,
    pub fee_growth_b: u128,
}

/// What a withdrawal leaves behind: the pool and the position after it, and
/// what leaves the vaults of token A and of token B.
pub struct Withdrawal {
    pub pool: Pool,
    pub position: Position,
    pub amount_a: u64,
    pub amount_b: u64,
}

/// The larger of two amounts.
pub open spec fn larger(a: u128, b: u128) -> u128 {
    if a >= b {
        a
    } else {
        b
    }
}

/// One bin's part in a collection of fees. The account must hold the
/// address expected of bin `bin_id`; the fees that the position has earned
/// in its bin are added to `so_far`, the marks rise to the bin's fee growth
/// where that is higher, and the bin one step up must have an id. The
/// result is the collection afterwards and that next bin's id.
pub open spec fn collect(account: BinAccount, expected: Option<Seq<u8>>, position: Position, bin_id: i32, bin_step: u16, so_far: Collected) -> Result<(Collected, i32), MyError> {
    let bin = account.bin;
    let fees_a = so_far.fees_a + accrued_fee(bin.fee_growth_per_unit_a, position.fee_growth_snapshot_a, position.liquidity);
    let fees_b = so_far.fees_b + accrued_fee(bin.fee_growth_per_unit_b, position.fee_growth_snapshot_b, position.liquidity);
    if expected != Some(account.key@) {
        Err(MyError::InvalidBinAccount)
    } else if fees_a > u64::MAX || fees_b > u64::MAX || bin_id + bin_step > i32::MAX {
        Err(MyError::MathOverflow)
    } else {
        Ok(
            (
                Collected {
                    fees_a: fees_a as u64,
                    fees_b: fees_b as u64,
                    fee_growth_a: larger(so_far.fee_growth_a, bin.fee_growth_per_unit_a),
                    fee_growth_b: larger(so_far.fee_growth_b, bin.fee_growth_per_unit_b),
                },
                (bin_id + bin_step) as i32,
            ),
        )
    }
}

/// Adds to `so_far` the fees that the position has earned in the bins of the
/// accounts from index `at` on, as the accounts of bin `bin_id`, of the bin
/// one step up, and so on.
pub open spec fn collected(
    accounts: Seq<BinAccount>,
    pool_key: Seq<u8>,
    program_id: Seq<u8>,
    bin_step: u16,
    position: Position,
    at: int,
    bin_id: i32,
    so_far: Collected,
) -> Result<Collected, MyError>
    decreases accounts.len() - at,
{
    if at < 0 || at >= accounts.len() {
        Ok(so_far)
    } else {
        match collect(accounts[at], bin_address(pool_key, bin_id, program_id), position, bin_id, bin_step, so_far) {
            Err(e) => Err(e),
            Ok((seen, next)) => collected(accounts, pool_key, program_id, bin_step, position, at + 1, next, seen),
        }
    }
}

/// A withdrawal of `liquidity_to_remove` from a position, with the fees that
/// it has earned in every bin of its range. What leaves a vault is the
/// principal plus the fees, which must fit 64 bits.
pub open spec fn withdrawal(
    pool: Pool,
    pool_key: Seq<u8>,
    position: Position,
    owner: Seq<u8>,
    accounts: Seq<BinAccount>,
    program_id: Seq<u8>,
    liquidity_to_remove: u128,
    min_amount_a: u64,
    min_amount_b: u64,
) -> Result<Withdrawal, MyError> {
    if position.owner@ != owner {
        Err(MyError::Unauthorized)
    } else if liquidity_to_remove > position.liquidity {
        Err(MyError::InsufficientLiquidity)
    } else {
        match claimable_amounts(pool, position, liquidity_to_remove) {
            Err(e) => Err(e),
            Ok((principal_a, principal_b)) => if accounts.len() != bin_count(position.lower_bin_id, position.upper_bin_id, pool.bin_step) {
                Err(MyError::InvalidBinCount)
            } else {
                match collected(
                    accounts,
                    pool_key,
                    program_id,
                    pool.bin_step,
                    position,
                    0,
                    position.lower_bin_id,
                    Collected { fees_a: 0, fees_b: 0, fee_growth_a: position.fee_growth_snapshot_a, fee_growth_b: position.fee_growth_snapshot_b },
                ) {
                    Err(e) => Err(e),
                    Ok(seen) => {
                        let amount_a = principal_a + seen.fees_a;
                        let amount_b = principal_b + seen.fees_b;
                        if amount_a > u64::MAX || amount_b > u64::MAX {
                            Err(MyError::MathOverflow)
                        } else if amount_a < min_amount_a || amount_b < min_amount_b {
                            Err(MyError::SlippageExceeded)
                        } else if amount_a > pool.reserves_a || amount_b > pool.reserves_b {
                            Err(MyError::MathOverflow)
                        } else {
                            Ok(
                                Withdrawal {
                                    pool: Pool {
                                        reserves_a: (pool.reserves_a - amount_a) as u64,
                                        reserves_b: (pool.reserves_b - amount_b) as u64,
                                        ..pool
                                    },
                                    position: Position {
                                        liquidity: (position.liquidity - liquidity_to_remove) as u128,
                                        fee_growth_snapshot_a: seen.fee_growth_a,
                                        fee_growth_snapshot_b: seen.fee_growth_b,
                                        ..position
                                    },
                                    amount_a: amount_a as u64,
                                    amount_b: amount_b as u64,
                                },
                            )
                        }
                    },
                }
            },
        }
    }
}

pub(crate) fn count_bins(lower: i32, upper: i32, bin_step: u16) -> (count: u64)
    requires
        bin_step > 0,
    ensures
        count == bin_count(lower, upper, bin_step),
{
    if lower <= upper {
        ((upper as i64 - lower as i64) as u64) / (bin_step as u64) + 1
    } else {
        0
    }
}

/// Collects a position's fees in one bin.
pub fn collect_from_bin(account: &BinAccount, expected: &Option<Address>, position: &Position, bin_id: i32, bin_step: u16, so_far: Collected) -> (r: Result<(Collected, i32), MyError>)
    ensures
        r == collect(*account, address_view(*expected), *position, bin_id, bin_step, so_far),
{
    if !holds_address(&account.key, expected) {
        return Err(MyError::InvalidBinAccount);
    }
    let (fees_a, fees_b) = calculate_accrued_fees(position, &account.bin);
    let total_fees_a = match so_far.fees_a.checked_add(narrow(fees_a)?) {
        Some(sum) => sum,
        None => { return Err(MyError::MathOverflow); },
    };
    let total_fees_b = match so_far.fees_b.checked_add(narrow(fees_b)?) {
        Some(sum) => sum,
        None => { return Err(MyError::MathOverflow); },
    };
    let next_bin_id = match bin_id.checked_add(bin_step as i32) {
        Some(id) => id,
        None => { return Err(MyError::MathOverflow); },
    };
    Ok(
        (
            Collected {
                fees_a: total_fees_a,
                fees_b: total_fees_b,
                fee_growth_a: if so_far.fee_growth_a >= account.bin.fee_growth_per_unit_a { so_far.fee_growth_a } else { account.bin.fee_growth_per_unit_a },
                fee_growth_b: if so_far.fee_growth_b >= account.bin.fee_growth_per_unit_b { so_far.fee_growth_b } else { account.bin.fee_growth_per_unit_b },
            },
            next_bin_id,
        ),
    )
}

/// Withdraws `liquidity_to_remove` from a position and pays out the fees
/// that it has earned. The accounts are those of every bin of the
/// position's range, from the lowest up. On success the position holds that
/// much less, its fee marks stand at the highest fee growth seen, the
/// reserves have shrunk by what leaves the vaults, and the result is what
/// leaves the vaults of token A and of token B (nothing moves where it is
/// zero). On refusal nothing has changed.
#[verifier::loop_isolation(false)]
pub fn handler(
    pool: &mut Pool,
    pool_key: &Address,
    position: &mut Position,
    owner: &Address,
    bin_accounts: &Vec<BinAccount>,
    program_id: &Address,
    liquidity_to_remove: u128,
    min_amount_a: u64,
    min_amount_b: u64,
) -> (r: Result<(u64, u64), MyError>)
    ensures
        match withdrawal(*old(pool), pool_key@, *old(position), owner@, bin_accounts@, program_id@, liquidity_to_remove, min_amount_a, min_amount_b) {
            Ok(done) => {
                &&& r == Ok::<(u64, u64), MyError>((done.amount_a, done.amount_b))
                &&& *final(pool) == done.pool
                &&& *final(position) == done.position
            },
            Err(e) => {
                &&& r == Err::<(u64, u64), MyError>(e)
                &&& *final(pool) == *old(pool)
                &&& *final(position) == *old(position)
            },
        },
        r matches Ok((amount_a, amount_b)) ==> amount_a >= min_amount_a && amount_b >= min_amount_b,
{
    if !same_address(&position.owner, owner) {
        return Err(MyError::Unauthorized);
    }
    if liquidity_to_remove > position.liquidity {
        return Err(MyError::InsufficientLiquidity);
    }
    let (principal_amount_a, principal_amount_b) = calculate_claimable_amounts(pool, position, liquidity_to_remove)?;
    let expected_bin_count = count_bins(position.lower_bin_id, position.upper_bin_id, pool.bin_step);
    if bin_accounts.len() as u64 != expected_bin_count {
        return Err(MyError::InvalidBinCount);
    }
    let mut seen = Collected {
        fees_a: 0,
        fees_b: 0,
        fee_growth_a: position.fee_growth_snapshot_a,
        fee_growth_b: position.fee_growth_snapshot_b,
    };
    let ghost first = seen;
    let mut current_bin_id: i32 = position.lower_bin_id;
    let mut at: usize = 0;
    while at < bin_accounts.len()
        invariant
            at <= bin_accounts.len(),
            *pool == *old(pool),
            *position == *old(position),
            collected(bin_accounts@, pool_key@, program_id@, pool.bin_step, *position, at as int, current_bin_id, seen)
                == collected(bin_accounts@, pool_key@, program_id@, pool.bin_step, *position, 0, position.lower_bin_id, first),
        decreases bin_accounts.len() - at,
    {
        let expected = expected_bin_address(pool_key, current_bin_id, program_id);
        let (gathered, next_bin_id) = collect_from_bin(&bin_accounts[at], &expected, position, current_bin_id, pool.bin_step, seen)?;
        seen = gathered;
        current_bin_id = next_bin_id;
        at += 1;
    }
    let total_withdrawal_a = match principal_amount_a.checked_add(seen.fees_a as u128) {
        Some(sum) => narrow(sum)?,
        None => { return Err(MyError::MathOverflow); },
    };
    let total_withdrawal_b = match principal_amount_b.checked_add(seen.fees_b as u128) {
        Some(sum) => narrow(sum)?,
        None => { return Err(MyError::MathOverflow); },
    };
    if total_withdrawal_a < min_amount_a || total_withdrawal_b < min_amount_b {
        return Err(MyError::SlippageExceeded);
    }
    let reserves_a = match pool.reserves_a.checked_sub(total_withdrawal_a) {
        Some(rest) => rest,
        None => { return Err(MyError::MathOverflow); },
    };
    let reserves_b = match pool.reserves_b.checked_sub(total_withdrawal_b) {
        Some(rest) => rest,
        None => { return Err(MyError::MathOverflow); },
    };
    pool.reserves_a = reserves_a;
    pool.reserves_b = reserves_b;
    position.liquidity = position.liquidity - liquidity_to_remove;
    position.fee_growth_snapshot_a = seen.fee_growth_a;
    position.fee_growth_snapshot_b = seen.fee_growth_b;
    Ok((total_withdrawal_a, total_withdrawal_b))
}

} // verus!
