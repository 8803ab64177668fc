//! Moving a position's liquidity to another range.

use vstd::prelude::*;
use crate::address::{address_view, bin_address, expected_bin_address, holds_address, same_address};
use crate::errors::MyError;
use crate::instructions::add_liquidity::{movement, movement_of, with_liquidity};
use crate::instructions::remove_liquidity::{count_bins, larger};
use crate::math::{accrued_fee, bin_count, calculate_accrued_fees, calculate_claimable_amounts, claimable_amounts, copy_accounts, narrow, range_amounts, sum_over_range};
use crate::state::{Address, Bin, BinAccount, Pool, Position};

verus! {

/// The record of a rebalance, for whoever follows the market from outside.
#[derive(Clone, Copy, Debug, PartialEq, Eq)]
pub struct LiquidityRebalanced {
    pub pool: Address,
    pub owner: Address,
    pub old_position: Address,
    pub new_position: Address,
    pub liquidity_moved: u128,
    pub new_lower_bin_id: i32,
    pub new_upper_bin_id: i32,
}

/// What a rebalance hands back: the surplus of each token, the one movement
/// of each token out of the pool's vaults that pays it in whole (`None`
/// where there is none), and the record to publish.
#[derive(Clone, Copy, Debug, PartialEq, Eq)]
pub struct Rebalanced {
    pub surplus_a: u128,
    pub surplus_b: u128,
    pub token_a_out: Option<u64>,
    pub token_b_out: Option<u64>,
    pub record: LiquidityRebalanced,
}

/// What a rebalance leaves behind.
pub struct Rebalance {
    pub pool: Pool,
    pub old_position: Position,
    pub new_position: Position,
    pub accounts: Seq<BinAccount>,
    pub outcome: Rebalanced,
}

/// The accounts after `bin` was written to the account at `key`. A bin of
/// both ranges is listed twice: accounts with one address are one record,
/// and what is written to one is written to all.
pub open spec fn stored(accounts: Seq<BinAccount>, key: Seq<u8>, bin: Bin) -> Seq<BinAccount> {
    Seq::new(
        accounts.len(),
        |i: int| if accounts[i].key@ == key {
            BinAccount { key: accounts[i].key, bin }
        } else {
            accounts[i]
        },
    )
}

/// One bin's part in the draining of a range. The account must hold the
/// address expected of bin `bin_id`; the fees that the position has earned
/// in its bin are added to `fees`, the bin gives up `per_bin` of liquidity,
/// which it must hold, and the bin one step up must have an id. The result
/// is the bin afterwards, the fees and that next bin's id.
pub open spec fn drain(account: BinAccount, expected: Option<Seq<u8>>, position: Position, per_bin: u128, bin_id: i32, bin_step: u16, fees: (u128, u128)) -> Result<(Bin, u128, u128, i32), MyError> {
    let bin = account.bin;
    let fees_a = fees.0 + accrued_fee(bin.fee_growth_per_unit_a, position.fee_growth_snapshot_a, position.liquidity);
    let fees_b = fees.1 + accrued_fee(bin.fee_growth_per_unit_b, position.fee_growth_snapshot_b, position.liquidity);
    if expected != Some(account.key@) {
        Err(MyError::InvalidBinAccount)
    } else if fees_a > u128::MAX || fees_b > u128::MAX || bin.liquidity < per_bin || bin_id + bin_step > i32::MAX {
        Err(MyError::MathOverflow)
    } else {
        Ok((with_liquidity(account, (bin.liquidity - per_bin) as u128).bin, fees_a as u128, fees_b as u128, (bin_id + bin_step) as i32))
    }
}

/// Drains the bins of the accounts from index `at` up to `end`, as the
/// accounts of bin `bin_id`, of the bin one step up, and so on.
pub open spec fn drained(
    accounts: Seq<BinAccount>,
    pool_key: Seq<u8>,
    program_id: Seq<u8>,
    bin_step: u16,
    position: Position,
    per_bin: u128,
    at: int,
    end: int,
    bin_id: i32,
    fees: (u128, u128),
) -> Result<(Seq<BinAccount>, u128, u128), MyError>
    decreases end - at,
{
    if at < 0 || at >= end || at >= accounts.len() {
        Ok((accounts, fees.0, fees.1))
    } else {
        match drain(accounts[at], bin_address(pool_key, bin_id, program_id), position, per_bin, bin_id, bin_step, fees) {
            Err(e) => Err(e),
            Ok((bin, fees_a, fees_b, next)) => drained(
                stored(accounts, accounts[at].key@, bin),
                pool_key,
                program_id,
                bin_step,
                position,
                per_bin,
                at + 1,
                end,
                next,
                (fees_a, fees_b),
            ),
        }
    }
}

/// One bin's part in the funding of a range. The account must hold the
/// address expected of bin `bin_id`; its bin gains `per_bin` of liquidity,
/// the marks rise to the bin's fee growth where that is higher, and the bin
/// one step up must have an id. The result is the bin afterwards, the marks
/// and that next bin's id.
pub open spec fn fund(account: BinAccount, expected: Option<Seq<u8>>, per_bin: u128, bin_id: i32, bin_step: u16, marks: (u128, u128)) -> Result<(Bin, u128, u128, i32), MyError> {
    let bin = account.bin;
    if expected != Some(account.key@) {
        Err(MyError::InvalidBinAccount)
    } else if bin.liquidity + per_bin > u128::MAX || bin_id + bin_step > i32::MAX {
        Err(MyError::MathOverflow)
    } else {
        Ok(
            (
                with_liquidity(account, (bin.liquidity + per_bin) as u128).bin,
                larger(marks.0, bin.fee_growth_per_unit_a),
                larger(marks.1, bin.fee_growth_per_unit_b),
                (bin_id + bin_step) as i32,
            ),
        )
    }
}

/// Funds the bins of the accounts from index `at` on, as the accounts of
/// bin `bin_id`, of the bin one step up, and so on.
pub open spec fn funded(
    accounts: Seq<BinAccount>,
    pool_key: Seq<u8>,
    program_id: Seq<u8>,
    bin_step: u16,
    per_bin: u128,
    at: int,
    bin_id: i32,
    marks: (u128, u128),
) -> Result<(Seq<BinAccount>, u128, u128), MyError>
    decreases accounts.len() - at,
{
    if at < 0 || at >= accounts.len() {
        Ok((accounts, marks.0, marks.1))
    } else {
        match fund(accounts[at], bin_address(pool_key, bin_id, program_id), per_bin, bin_id, bin_step, marks) {
            Err(e) => Err(e),
            Ok((bin, mark_a, mark_b, next)) => funded(stored(accounts, accounts[at].key@, bin), pool_key, program_id, bin_step, per_bin, at + 1, next, (mark_a, mark_b)),
        }
    }
}

/// Who may rebalance: the owner of both positions, and both must belong to
/// the pool.
pub open spec fn standing(pool_key: Seq<u8>, owner: Seq<u8>, old_position: Position, new_position: Position) -> Result<(), MyError> {
    if old_position.owner@ != owner {
        Err(MyError::Unauthorized)
    } else if old_position.pool@ != pool_key {
        Err(MyError::InvalidPool)
    } else if new_position.owner@ != owner {
        Err(MyError::Unauthorized)
    } else if new_position.pool@ != pool_key {
        Err(MyError::InvalidPool)
    } else {
        Ok(())
    }
}

/// What the old position is worth: its principal at the pool's active bin
/// plus the fees it has earned, with the accounts after its bins were
/// drained.
pub open spec fn claim(
    pool: Pool,
    pool_key: Seq<u8>,
    old_position: Position,
    accounts: Seq<BinAccount>,
    program_id: Seq<u8>,
) -> Result<(Seq<BinAccount>, u128, u128), MyError> {
    let moved = old_position.liquidity;
    let old_bins = bin_count(old_position.lower_bin_id, old_position.upper_bin_id, pool.bin_step);
    match claimable_amounts(pool, old_position, moved) {
        Err(e) => Err(e),
        Ok((principal_a, principal_b)) => if old_bins == 0 {
            Err(MyError::MathOverflow)
        } else {
            match drained(accounts, pool_key, program_id, pool.bin_step, old_position, (moved as int / old_bins) as u128, 0, old_bins, old_position.lower_bin_id, (0u128, 0u128)) {
                Err(e) => Err(e),
                Ok((after, fees_a, fees_b)) => if principal_a + fees_a > u128::MAX || principal_b + fees_b > u128::MAX {
                    Err(MyError::MathOverflow)
                } else {
                    Ok((after, (principal_a + fees_a) as u128, (principal_b + fees_b) as u128))
                },
            }
        },
    }
}

/// What the new range asks for all the liquidity moved.
pub open spec fn reseeding(pool: Pool, new_position: Position, moved: u128) -> Result<(u128, u128), MyError> {
    range_amounts(pool.active_bin_id, pool.bin_step, new_position.lower_bin_id, new_position.upper_bin_id, moved)
}

/// A rebalance: all the liquidity of the old position moves to the range of
/// the new one. The surplus of each token is what the old position is worth
/// less what the new range asks, exactly; it is paid out in whole and
/// leaves the pool's reserves. A surplus that leaves 64 bits, or that the
/// reserves do not hold, refuses the rebalance.
pub open spec fn rebalance(
    pool: Pool,
    pool_key: Address,
    owner: Address,
    old_position: Position,
    old_position_key: Address,
    new_position: Position,
    new_position_key: Address,
    accounts: Seq<BinAccount>,
    program_id: Seq<u8>,
    min_surplus_a_out: u64,
    min_surplus_b_out: u64,
) -> Result<Rebalance, MyError> {
    let moved = old_position.liquidity;
    let old_bins = bin_count(old_position.lower_bin_id, old_position.upper_bin_id, pool.bin_step);
    let new_bins = bin_count(new_position.lower_bin_id, new_position.upper_bin_id, pool.bin_step);
    match standing(pool_key@, owner@, old_position, new_position) {
        Err(e) => Err(e),
        Ok(_) => if moved == 0 {
            Err(MyError::PositionNotEmpty)
        } else if pool.bin_step == 0 {
            Err(MyError::InvalidBinStep)
        } else if accounts.len() != old_bins + new_bins {
            Err(MyError::InvalidBinCount)
        } else {
            match claim(pool, pool_key@, old_position, accounts, program_id) {
                Err(e) => Err(e),
                Ok((drained_accounts, claimable_a, claimable_b)) => match reseeding(pool, new_position, moved) {
                    Err(e) => Err(e),
                    Ok((required_a, required_b)) => {
                        let surplus_a = (claimable_a - required_a) as u128;
                        let surplus_b = (claimable_b - required_b) as u128;
                        if claimable_a < required_a || claimable_b < required_b {
                            Err(MyError::InsufficientLiquidity)
                        } else if surplus_a < min_surplus_a_out || surplus_b < min_surplus_b_out {
                            Err(MyError::SlippageExceeded)
                        } else if surplus_a > pool.reserves_a || surplus_b > pool.reserves_b || new_bins == 0 {
                            Err(MyError::MathOverflow)
                        } else {
                            match funded(drained_accounts, pool_key@, program_id, pool.bin_step, (moved as int / new_bins) as u128, old_bins, new_position.lower_bin_id, (0u128, 0u128)) {
                                Err(e) => Err(e),
                                Ok((after, mark_a, mark_b)) => if new_position.liquidity + moved > u128::MAX {
                                    Err(MyError::MathOverflow)
                                } else {
                                    Ok(
                                        Rebalance {
                                            pool: Pool {
                                                reserves_a: (pool.reserves_a - surplus_a) as u64,
                                                reserves_b: (pool.reserves_b - surplus_b) as u64,
                                                ..pool
                                            },
                                            old_position: Position { liquidity: 0, ..old_position },
                                            new_position: Position {
                                                liquidity: (new_position.liquidity + moved) as u128,
                                                fee_growth_snapshot_a: mark_a,
                                                fee_growth_snapshot_b: mark_b,
                                                ..new_position
                                            },
                                            accounts: after,
                                            outcome: Rebalanced {
                                                surplus_a,
                                                surplus_b,
                                                token_a_out: movement(surplus_a),
                                                token_b_out: movement(surplus_b),
                                                record: LiquidityRebalanced {
                                                    pool: pool_key,
                                                    owner,
                                                    old_position: old_position_key,
                                                    new_position: new_position_key,
                                                    liquidity_moved: moved,
                                                    new_lower_bin_id: new_position.lower_bin_id,
                                                    new_upper_bin_id: new_position.upper_bin_id,
                                                },
                                            },
                                        },
                                    )
                                },
                            }
                        }
                    },
                },
            }
        },
    }
}

/// Draining keeps every account in its place and under its address.
pub proof fn lemma_drained_keeps_accounts(
    accounts: Seq<BinAccount>,
    pool_key: Seq<u8>,
    program_id: Seq<u8>,
    bin_step: u16,
    position: Position,
    per_bin: u128,
    at: int,
    end: int,
    bin_id: i32,
    fees: (u128, u128),
)
    ensures
        drained(accounts, pool_key, program_id, bin_step, position, per_bin, at, end, bin_id, fees) matches Ok((after, _, _)) ==> {
            &&& after.len() == accounts.len()
            &&& forall|i: int| 0 <= i < accounts.len() ==> (#[trigger] after[i]).key == accounts[i].key
        },
    decreases end - at,
{
    if 0 <= at < end && at < accounts.len() {
        if let Ok((bin, fees_a, fees_b, next)) = drain(accounts[at], bin_address(pool_key, bin_id, program_id), position, per_bin, bin_id, bin_step, fees) {
            lemma_drained_keeps_accounts(stored(accounts, accounts[at].key@, bin), pool_key, program_id, bin_step, position, per_bin, at + 1, end, next, (fees_a, fees_b));
        }
    }
}

/// Funding keeps every account in its place and under its address.
pub proof fn lemma_funded_keeps_accounts(accounts: Seq<BinAccount>, pool_key: Seq<u8>, program_id: Seq<u8>, bin_step: u16, per_bin: u128, at: int, bin_id: i32, marks: (u128, u128))
    ensures
        funded(accounts, pool_key, program_id, bin_step, per_bin, at, bin_id, marks) matches Ok((after, _, _)) ==> {
            &&& after.len() == accounts.len()
            &&& forall|i: int| 0 <= i < accounts.len() ==> (#[trigger] after[i]).key == accounts[i].key
        },
    decreases accounts.len() - at,
{
    if 0 <= at < accounts.len() {
        if let Ok((bin, mark_a, mark_b, next)) = fund(accounts[at], bin_address(pool_key, bin_id, program_id), per_bin, bin_id, bin_step, marks) {
            lemma_funded_keeps_accounts(stored(accounts, accounts[at].key@, bin), pool_key, program_id, bin_step, per_bin, at + 1, next, (mark_a, mark_b));
        }
    }
}

fn store_bin(accounts: &mut Vec<BinAccount>, key: &Address, bin: Bin)
    ensures
        final(accounts)@ == stored(old(accounts)@, key@, bin),
{
    let count: usize = accounts.len();
    let mut i: usize = 0;
    while i < count
        invariant
            i <= count,
            accounts@.len() == count,
            old(accounts)@.len() == count,
            forall|k: int| 0 <= k < i ==> accounts@[k] == stored(old(accounts)@, key@, bin)[k],
            forall|k: int| i <= k < count ==> accounts@[k] == old(accounts)@[k],
        decreases count - i,
    {
        let account = accounts[i];
        if same_address(&account.key, key) {
            accounts.set(i, BinAccount { key: account.key, bin });
        }
        i += 1;
    }
    assert(accounts@ =~= stored(old(accounts)@, key@, bin));
}

/// Drains one bin of the old range.
pub fn drain_bin(account: &BinAccount, expected: &Option<Address>, position: &Position, per_bin: u128, bin_id: i32, bin_step: u16, fees: (u128, u128)) -> (r: Result<(Bin, u128, u128, i32), MyError>)
    ensures
        r == drain(*account, address_view(*expected), *position, per_bin, bin_id, bin_step, fees),
{
    if !holds_address(&account.key, expected) {
        return Err(MyError::InvalidBinAccount);
    }
    let (fees_a, fees_b) = calculate_accrued_fees(position, &account.bin);
    let total_fees_a = match fees.0.checked_add(fees_a) {
        Some(sum) => sum,
        None => { return Err(MyError::MathOverflow); },
    };
    let total_fees_b = match fees.1.checked_add(fees_b) {
        Some(sum) => sum,
        None => { return Err(MyError::MathOverflow); },
    };
    let liquidity = match account.bin.liquidity.checked_sub(per_bin) {
        Some(rest) => rest,
        None => { return Err(MyError::MathOverflow); },
    };
    let next_bin_id = match bin_id.checked_add(bin_step as i32) {
        Some(id) => id,
        None => { return Err(MyError::MathOverflow); },
    };
    Ok(
        (
            Bin {
                liquidity,
                fee_growth_per_unit_a: account.bin.fee_growth_per_unit_a,
                fee_growth_per_unit_b: account.bin.fee_growth_per_unit_b,
            },
            total_fees_a,
            total_fees_b,
            next_bin_id,
        ),
    )
}

/// Funds one bin of the new range.
pub fn fund_bin(account: &BinAccount, expected: &Option<Address>, per_bin: u128, bin_id: i32, bin_step: u16, marks: (u128, u128)) -> (r: Result<(Bin, u128, u128, i32), MyError>)
    ensures
        r == fund(*account, address_view(*expected), per_bin, bin_id, bin_step, marks),
{
    if !holds_address(&account.key, expected) {
        return Err(MyError::InvalidBinAccount);
    }
    let liquidity = match account.bin.liquidity.checked_add(per_bin) {
        Some(sum) => sum,
        None => { return Err(MyError::MathOverflow); },
    };
    let next_bin_id = match bin_id.checked_add(bin_step as i32) {
        Some(id) => id,
        None => { return Err(MyError::MathOverflow); },
    };
    Ok(
        (
            Bin {
                liquidity,
                fee_growth_per_unit_a: account.bin.fee_growth_per_unit_a,
                fee_growth_per_unit_b: account.bin.fee_growth_per_unit_b,
            },
            if marks.0 >= account.bin.fee_growth_per_unit_a { marks.0 } else { account.bin.fee_growth_per_unit_a },
            if marks.1 >= account.bin.fee_growth_per_unit_b { marks.1 } else { account.bin.fee_growth_per_unit_b },
            next_bin_id,
        ),
    )
}

/// Moves all the liquidity of `old_position` to the range of
/// `new_position`. The accounts are those of every bin of the old range,
/// from the lowest up, then those of every bin of the new range, from the
/// lowest up. On success the bins of the old range have given up their
/// share and those of the new range have gained theirs, the old position is
/// empty, the new one holds what was moved and its fee marks stand at the
/// highest fee growth among its bins, the reserves have shrunk by what is
/// paid out, and the result says what to pay out and what to publish. On
/// refusal nothing has changed.
#[verifier::loop_isolation(false)]
pub fn handler(
    pool: &mut Pool,
    pool_key: &Address,
    owner: &Address,
    old_position: &mut Position,
    old_position_key: &Address,
    new_position: &mut Position,
    new_position_key: &Address,
    bin_accounts: &mut Vec<BinAccount>,
    program_id: &Address,
    min_surplus_a_out: u64,
    min_surplus_b_out: u64,
) -> (r: Result<Rebalanced, MyError>)
    ensures
        match rebalance(
            *old(pool),
            *pool_key,
            *owner,
            *old(old_position),
            *old_position_key,
            *old(new_position),
            *new_position_key,
            old(bin_accounts)@,
            program_id@,
            min_surplus_a_out,
            min_surplus_b_out,
        ) {
            Ok(done) => {
                &&& r == Ok::<Rebalanced, MyError>(done.outcome)
                &&& *final(pool) == done.pool
                &&& *final(old_position) == done.old_position
                &&& *final(new_position) == done.new_position
                &&& final(bin_accounts)@ == done.accounts
            },
            Err(e) => {
                &&& r == Err::<Rebalanced, MyError>(e)
                &&& *final(pool) == *old(pool)
                &&& *final(old_position) == *old(old_position)
                &&& *final(new_position) == *old(new_position)
                &&& final(bin_accounts)@ == old(bin_accounts)@
            },
        },
        r matches Ok(outcome) ==> {
            &&& outcome.surplus_a >= min_surplus_a_out
            &&& outcome.surplus_b >= min_surplus_b_out
            &&& outcome.token_a_out == movement(outcome.surplus_a)
            &&& outcome.token_b_out == movement(outcome.surplus_b)
            &&& final(pool).reserves_a == old(pool).reserves_a - outcome.surplus_a
            &&& final(pool).reserves_b == old(pool).reserves_b - outcome.surplus_b
        },
        final(bin_accounts)@.len() == old(bin_accounts)@.len(),
        forall|i: int| 0 <= i < old(bin_accounts)@.len() ==> (#[trigger] final(bin_accounts)@[i]).key == old(bin_accounts)@[i].key,
{
    if !same_address(&old_position.owner, owner) {
        return Err(MyError::Unauthorized);
    }
    if !same_address(&old_position.pool, pool_key) {
        return Err(MyError::InvalidPool);
    }
    if !same_address(&new_position.owner, owner) {
        return Err(MyError::Unauthorized);
    }
    if !same_address(&new_position.pool, pool_key) {
        return Err(MyError::InvalidPool);
    }
    let liquidity_to_move: u128 = old_position.liquidity;
    if liquidity_to_move == 0 {
        return Err(MyError::PositionNotEmpty);
    }
    if pool.bin_step == 0 {
        return Err(MyError::InvalidBinStep);
    }
    let expected_old_bins_count: u64 = count_bins(old_position.lower_bin_id, old_position.upper_bin_id, pool.bin_step);
    let expected_new_bins_count: u64 = count_bins(new_position.lower_bin_id, new_position.upper_bin_id, pool.bin_step);
    if bin_accounts.len() as u64 != expected_old_bins_count + expected_new_bins_count {
        return Err(MyError::InvalidBinCount);
    }
    let old_end: usize = expected_old_bins_count as usize;
    let (principal_a, principal_b) = calculate_claimable_amounts(pool, old_position, liquidity_to_move)?;
    if expected_old_bins_count == 0 {
        return Err(MyError::MathOverflow);
    }
    let liquidity_per_old_bin: u128 = liquidity_to_move / (expected_old_bins_count as u128);
    let mut staged = copy_accounts(bin_accounts);
    let mut total_fees_a: u128 = 0;
    let mut total_fees_b: u128 = 0;
    let mut current_bin_id: i32 = old_position.lower_bin_id;
    let mut at: usize = 0;
    while at < old_end
        invariant
            at <= old_end <= staged@.len(),
            staged@.len() == bin_accounts@.len(),
            forall|i: int| 0 <= i < staged@.len() ==> (#[trigger] staged@[i]).key == old(bin_accounts)@[i].key,
            *pool == *old(pool),
            *old_position == *old(old_position),
            *new_position == *old(new_position),
            bin_accounts@ == old(bin_accounts)@,
            drained(staged@, pool_key@, program_id@, pool.bin_step, *old_position, liquidity_per_old_bin, at as int, old_end as int, current_bin_id, (total_fees_a, total_fees_b))
                == drained(old(bin_accounts)@, pool_key@, program_id@, pool.bin_step, *old_position, liquidity_per_old_bin, 0, old_end as int, old_position.lower_bin_id, (0u128, 0u128)),
        decreases old_end - at,
    {
        let account = staged[at];
        let expected = expected_bin_address(pool_key, current_bin_id, program_id);
        let (bin, fees_a, fees_b, next_bin_id) = drain_bin(&account, &expected, old_position, liquidity_per_old_bin, current_bin_id, pool.bin_step, (total_fees_a, total_fees_b))?;
        store_bin(&mut staged, &account.key, bin);
        total_fees_a = fees_a;
        total_fees_b = fees_b;
        current_bin_id = next_bin_id;
        at += 1;
    }
    let total_claimable_a = match principal_a.checked_add(total_fees_a) {
        Some(sum) => sum,
        None => { return Err(MyError::MathOverflow); },
    };
    let total_claimable_b = match principal_b.checked_add(total_fees_b) {
        Some(sum) => sum,
        None => { return Err(MyError::MathOverflow); },
    };
    let (required_a, required_b) = sum_over_range(pool.active_bin_id, pool.bin_step, new_position.lower_bin_id, new_position.upper_bin_id, liquidity_to_move)?;
    let surplus_a = match total_claimable_a.checked_sub(required_a) {
        Some(rest) => rest,
        None => { return Err(MyError::InsufficientLiquidity); },
    };
    let surplus_b = match total_claimable_b.checked_sub(required_b) {
        Some(rest) => rest,
        None => { return Err(MyError::InsufficientLiquidity); },
    };
    if surplus_a < min_surplus_a_out as u128 || surplus_b < min_surplus_b_out as u128 {
        return Err(MyError::SlippageExceeded);
    }
    let paid_a = narrow(surplus_a)?;
    let paid_b = narrow(surplus_b)?;
    let reserves_a = match pool.reserves_a.checked_sub(paid_a) {
        Some(rest) => rest,
        None => { return Err(MyError::MathOverflow); },
    };
    let reserves_b = match pool.reserves_b.checked_sub(paid_b) {
        Some(rest) => rest,
        None => { return Err(MyError::MathOverflow); },
    };
    let token_a_out = movement_of(paid_a);
    let token_b_out = movement_of(paid_b);
    if expected_new_bins_count == 0 {
        return Err(MyError::MathOverflow);
    }
    let liquidity_per_new_bin: u128 = liquidity_to_move / (expected_new_bins_count as u128);
    let ghost drained_accounts = staged@;
    let mut snapshot_a: u128 = 0;
    let mut snapshot_b: u128 = 0;
    current_bin_id = new_position.lower_bin_id;
    while at < staged.len()
        invariant
            old_end <= at <= staged@.len(),
            staged@.len() == bin_accounts@.len(),
            forall|i: int| 0 <= i < staged@.len() ==> (#[trigger] staged@[i]).key == old(bin_accounts)@[i].key,
            *pool == *old(pool),
            *old_position == *old(old_position),
            *new_position == *old(new_position),
            bin_accounts@ == old(bin_accounts)@,
            funded(staged@, pool_key@, program_id@, pool.bin_step, liquidity_per_new_bin, at as int, current_bin_id, (snapshot_a, snapshot_b))
                == funded(drained_accounts, pool_key@, program_id@, pool.bin_step, liquidity_per_new_bin, old_end as int, new_position.lower_bin_id, (0u128, 0u128)),
        decreases staged@.len() - at,
    {
        let account = staged[at];
        let expected = expected_bin_address(pool_key, current_bin_id, program_id);
        let (bin, mark_a, mark_b, next_bin_id) = fund_bin(&account, &expected, liquidity_per_new_bin, current_bin_id, pool.bin_step, (snapshot_a, snapshot_b))?;
        store_bin(&mut staged, &account.key, bin);
        snapshot_a = mark_a;
        snapshot_b = mark_b;
        current_bin_id = next_bin_id;
        at += 1;
    }
    let liquidity = match new_position.liquidity.checked_add(liquidity_to_move) {
        Some(sum) => sum,
        None => { return Err(MyError::MathOverflow); },
    };
    let record = LiquidityRebalanced {
        pool: *pool_key,
        owner: *owner,
        old_position: *old_position_key,
        new_position: *new_position_key,
        liquidity_moved: liquidity_to_move,
        new_lower_bin_id: new_position.lower_bin_id,
        new_upper_bin_id: new_position.upper_bin_id,
    };
    pool.reserves_a = reserves_a;
    pool.reserves_b = reserves_b;
    old_position.liquidity = 0;
    new_position.liquidity = liquidity;
    new_position.fee_growth_snapshot_a = snapshot_a;
    new_position.fee_growth_snapshot_b = snapshot_b;
    *bin_accounts = staged;
    Ok(Rebalanced { surplus_a, surplus_b, token_a_out, token_b_out, record })
}

} // verus!
