//! Depositing liquidity into a chunk of a position's bins.

use vstd::prelude::*;
use crate::address::{address_view, bin_address, expected_bin_address, holds_address, same_address};
use crate::errors::MyError;
use crate::math::{calculate_required_for_bin, copy_accounts, narrow, required_for_bin};
use crate::state::{Address, Bin, BinAccount, Pool, Position};

verus! {

/// What a deposit leaves behind: the pool, the position and the accounts
/// after it, and the one movement of each token into the pool's vaults that
/// pays for it (`None` where the chunk needs none of that token).
pub struct Deposit {
    pub pool: Pool,
    pub position: Position,
    pub accounts: Seq<BinAccount>,
    pub token_a_in: Option<u64>,
    pub token_b_in: Option<u64>,
}

/// Adds to `so_far` what `count` bins from `bin_id` on ask for `per_bin`
/// each. Every bin must lie within `lower..=upper`, and the bin after each
/// must have an id.
pub open spec fn chunk_amounts(pool: Pool, lower: i32, upper: i32, bin_id: i32, count: nat, per_bin: u128, so_far: (u128, u128)) -> Result<(u128, u128), MyError>
    decreases count,
{
    if count == 0 {
        Ok(so_far)
    } else if bin_id < lower || bin_id > upper {
        Err(MyError::InvalidBinRange)
    } else {
        match required_for_bin(pool.active_bin_id, bin_id, pool.bin_step, per_bin) {
            Err(e) => Err(e),
            Ok((in_a, in_b)) => if so_far.0 + in_a > u128::MAX || so_far.1 + in_b > u128::MAX || bin_id + pool.bin_step > i32::MAX {
                Err(MyError::MathOverflow)
            } else {
                chunk_amounts(pool, lower, upper, (bin_id + pool.bin_step) as i32, (count - 1) as nat, per_bin, ((so_far.0 + in_a) as u128, (so_far.1 + in_b) as u128))
            },
        }
    }
}

/// An account whose bin holds `liquidity` and is otherwise unchanged.
pub open spec fn with_liquidity(account: BinAccount, liquidity: u128) -> BinAccount {
    BinAccount {
        key: account.key,
        bin: Bin {
            liquidity,
            fee_growth_per_unit_a: account.bin.fee_growth_per_unit_a,
            fee_growth_per_unit_b: account.bin.fee_growth_per_unit_b,
        },
    }
}

/// One bin's part in a deposit. The account must hold the address expected
/// of bin `bin_id`; its bin gains `per_bin` of liquidity, and the bin one
/// step up must have an id. The result is the account afterwards and that
/// next bin's id.
pub open spec fn credit(account: BinAccount, expected: Option<Seq<u8>>, bin_id: i32, bin_step: u16, per_bin: u128) -> Result<(BinAccount, i32), MyError> {
    if expected != Some(account.key@) {
        Err(MyError::InvalidBinAccount)
    } else if account.bin.liquidity + per_bin > u128::MAX || bin_id + bin_step > i32::MAX {
        Err(MyError::MathOverflow)
    } else {
        Ok((with_liquidity(account, (account.bin.liquidity + per_bin) as u128), (bin_id + bin_step) as i32))
    }
}

/// The accounts after each one from index `at` on has gained `per_bin` of
/// liquidity, as the accounts of bin `bin_id`, of the bin one step up, and
/// so on.
pub open spec fn credited(accounts: Seq<BinAccount>, pool_key: Seq<u8>, program_id: Seq<u8>, bin_step: u16, at: int, bin_id: i32, per_bin: u128) -> Result<Seq<BinAccount>, MyError>
    decreases accounts.len() - at,
{
    if at < 0 || at >= accounts.len() {
        Ok(accounts)
    } else {
        match credit(accounts[at], bin_address(pool_key, bin_id, program_id), bin_id, bin_step, per_bin) {
            Err(e) => Err(e),
            Ok((account, next)) => credited(accounts.update(at, account), pool_key, program_id, bin_step, at + 1, next, per_bin),
        }
    }
}

/// The one movement of a token that a chunk needs: all that it asks for, or
/// none where it asks for nothing.
pub open spec fn movement(needed: u128) -> Option<u64> {
    if needed > 0 {
        Some(needed as u64)
    } else {
        None
    }
}

/// What a movement moves; nothing where there is none.
pub open spec fn amount_of(movement: Option<u64>) -> int {
    match movement {
        Some(amount) => amount as int,
        None => 0,
    }
}

/// A deposit of `liquidity_per_bin` into each bin of a chunk: the bins of
/// `accounts`, starting at `start_bin_id`. What the chunk asks of a token
/// is moved in whole and added to the reserve; a reserve that would leave 64
/// bits refuses the deposit.
pub open spec fn deposit(
    pool: Pool,
    pool_key: Seq<u8>,
    position: Position,
    accounts: Seq<BinAccount>,
    program_id: Seq<u8>,
    start_bin_id: i32,
    liquidity_per_bin: u128,
) -> Result<Deposit, MyError> {
    let added = liquidity_per_bin * accounts.len();
    if position.pool@ != pool_key {
        Err(MyError::InvalidPool)
    } else if liquidity_per_bin == 0 {
        Err(MyError::ZeroLiquidity)
    } else {
        match chunk_amounts(pool, position.lower_bin_id, position.upper_bin_id, start_bin_id, accounts.len(), liquidity_per_bin, (0u128, 0u128)) {
            Err(e) => Err(e),
            Ok((need_a, need_b)) => if pool.reserves_a + need_a > u64::MAX || pool.reserves_b + need_b > u64::MAX {
                Err(MyError::MathOverflow)
            } else {
                match credited(accounts, pool_key, program_id, pool.bin_step, 0, start_bin_id, liquidity_per_bin) {
                    Err(e) => Err(e),
                    Ok(after) => if position.liquidity + added > u128::MAX {
                        Err(MyError::MathOverflow)
                    } else {
                        Ok(
                            Deposit {
                                pool: Pool { reserves_a: (pool.reserves_a + need_a) as u64, reserves_b: (pool.reserves_b + need_b) as u64, ..pool },
                                position: Position { liquidity: (position.liquidity + added) as u128, ..position },
                                accounts: after,
                                token_a_in: movement(need_a),
                                token_b_in: movement(need_b),
                            },
                        )
                    },
                }
            },
        }
    }
}

/// What `credited` does to each account: those before `at` stay, the others
/// gain `per_bin` and nothing else changes.
pub proof fn lemma_credited_each(accounts: Seq<BinAccount>, pool_key: Seq<u8>, program_id: Seq<u8>, bin_step: u16, at: int, bin_id: i32, per_bin: u128)
    requires
        0 <= at,
    ensures
        credited(accounts, pool_key, program_id, bin_step, at, bin_id, per_bin) matches Ok(after) ==> {
            &&& after.len() == accounts.len()
            &&& forall|i: int| 0 <= i < at && i < accounts.len() ==> #[trigger] after[i] == accounts[i]
            &&& forall|i: int| at <= i < accounts.len() ==> #[trigger] after[i] == with_liquidity(accounts[i], (accounts[i].bin.liquidity + per_bin) as u128)
                && accounts[i].bin.liquidity + per_bin <= u128::MAX
        },
    decreases accounts.len() - at,
{
    if at < accounts.len() {
        if let Ok((account, next)) = credit(accounts[at], bin_address(pool_key, bin_id, program_id), bin_id, bin_step, per_bin) {
            let moved = accounts.update(at, account);
            lemma_credited_each(moved, pool_key, program_id, bin_step, at + 1, next, per_bin);
            if let Ok(after) = credited(moved, pool_key, program_id, bin_step, at + 1, next, per_bin) {
                assert(after[at] == moved[at]);
                assert forall|i: int| at < i < accounts.len() implies after[i] == with_liquidity(accounts[i], (accounts[i].bin.liquidity + per_bin) as u128)
                    && accounts[i].bin.liquidity + per_bin <= u128::MAX by {
                    assert(moved[i] == accounts[i]);
                }
                assert forall|i: int| 0 <= i < at implies after[i] == accounts[i] by {
                    assert(moved[i] == accounts[i]);
                }
            }
        }
    }
}

/// Credits one bin of a deposit.
pub fn credit_bin(account: &BinAccount, expected: &Option<Address>, bin_id: i32, bin_step: u16, per_bin: u128) -> (r: Result<(BinAccount, i32), MyError>)
    ensures
        r == credit(*account, address_view(*expected), bin_id, bin_step, per_bin),
{
    if !holds_address(&account.key, expected) {
        return Err(MyError::InvalidBinAccount);
    }
    let liquidity = match account.bin.liquidity.checked_add(per_bin) {
        Some(sum) => sum,
        None => { return Err(MyError::MathOverflow); },
    };
    let next_bin_id = match bin_id.checked_add(bin_step as i32) {
        Some(id) => id,
        None => { return Err(MyError::MathOverflow); },
    };
    Ok(
        (
            BinAccount {
                key: account.key,
                bin: Bin {
                    liquidity,
                    fee_growth_per_unit_a: account.bin.fee_growth_per_unit_a,
                    fee_growth_per_unit_b: account.bin.fee_growth_per_unit_b,
                },
            },
            next_bin_id,
        ),
    )
}

fn add_to_reserve(reserve: u64, needed: u128) -> (r: Result<u64, MyError>)
    ensures
        r == if reserve + needed > u64::MAX {
            Err::<u64, MyError>(MyError::MathOverflow)
        } else {
            Ok::<u64, MyError>((reserve + needed) as u64)
        },
{
    let moved = narrow(needed)?;
    match reserve.checked_add(moved) {
        Some(sum) => Ok(sum),
        None => Err(MyError::MathOverflow),
    }
}

pub(crate) fn movement_of(needed: u64) -> (moved: Option<u64>)
    ensures
        moved == movement(needed as u128),
{
    if needed > 0 {
        Some(needed)
    } else {
        None
    }
}

/// Deposits `liquidity_per_bin` into each bin of a chunk of a position's
/// range. The accounts are those of the bins `start_bin_id`,
/// `start_bin_id + bin_step`, ... in this order. On success every bin of
/// the chunk has gained `liquidity_per_bin`, the position has gained that
/// times the number of bins, the reserves have grown by what is to be moved
/// in, and the result says what to move. On refusal nothing has changed.
/// Who may deposit into the position is for the caller to settle.
#[verifier::loop_isolation(false)]
pub fn handler(
    pool: &mut Pool,
    pool_key: &Address,
    position: &mut Position,
    bin_accounts: &mut Vec<BinAccount>,
    program_id: &Address,
    start_bin_id: i32,
    liquidity_per_bin: u128,
) -> (r: Result<(Option<u64>, Option<u64>), MyError>)
    ensures
        match deposit(*old(pool), pool_key@, *old(position), old(bin_accounts)@, program_id@, start_bin_id, liquidity_per_bin) {
            Ok(done) => {
                &&& r == Ok::<(Option<u64>, Option<u64>), MyError>((done.token_a_in, done.token_b_in))
                &&& *final(pool) == done.pool
                &&& *final(position) == done.position
                &&& final(bin_accounts)@ == done.accounts
            },
            Err(e) => {
                &&& r == Err::<(Option<u64>, Option<u64>), MyError>(e)
                &&& *final(pool) == *old(pool)
                &&& *final(position) == *old(position)
                &&& final(bin_accounts)@ == old(bin_accounts)@
            },
        },
        r is Ok ==> final(position).liquidity == old(position).liquidity + liquidity_per_bin * old(bin_accounts)@.len(),
        r matches Ok((token_a_in, token_b_in)) ==> {
            &&& final(pool).reserves_a == old(pool).reserves_a + amount_of(token_a_in)
            &&& final(pool).reserves_b == old(pool).reserves_b + amount_of(token_b_in)
            &&& final(pool).active_bin_id == old(pool).active_bin_id
        },
        final(bin_accounts)@.len() == old(bin_accounts)@.len(),
        r is Ok ==> forall|i: int| 0 <= i < old(bin_accounts)@.len() ==> #[trigger] final(bin_accounts)@[i] == with_liquidity(
            old(bin_accounts)@[i],
            (old(bin_accounts)@[i].bin.liquidity + liquidity_per_bin) as u128,
        ),
{
    if !same_address(&position.pool, pool_key) {
        return Err(MyError::InvalidPool);
    }
    if liquidity_per_bin == 0 {
        return Err(MyError::ZeroLiquidity);
    }
    let count: usize = bin_accounts.len();
    let mut current_bin_id: i32 = start_bin_id;
    let mut total_required_a: u128 = 0;
    let mut total_required_b: u128 = 0;
    let mut seen: usize = 0;
    while seen < count
        invariant
            seen <= count,
            count == bin_accounts@.len(),
            *pool == *old(pool),
            *position == *old(position),
            bin_accounts@ == old(bin_accounts)@,
            chunk_amounts(*pool, position.lower_bin_id, position.upper_bin_id, current_bin_id, (count - seen) as nat, liquidity_per_bin, (total_required_a, total_required_b))
                == chunk_amounts(*pool, position.lower_bin_id, position.upper_bin_id, start_bin_id, count as nat, liquidity_per_bin, (0u128, 0u128)),
        decreases count - seen,
    {
        if current_bin_id < position.lower_bin_id || current_bin_id > position.upper_bin_id {
            return Err(MyError::InvalidBinRange);
        }
        let (required_a, required_b) = calculate_required_for_bin(pool.active_bin_id, current_bin_id, pool.bin_step, liquidity_per_bin)?;
        total_required_a = match total_required_a.checked_add(required_a) {
            Some(sum) => sum,
            None => { return Err(MyError::MathOverflow); },
        };
        total_required_b = match total_required_b.checked_add(required_b) {
            Some(sum) => sum,
            None => { return Err(MyError::MathOverflow); },
        };
        current_bin_id = match current_bin_id.checked_add(pool.bin_step as i32) {
            Some(id) => id,
            None => { return Err(MyError::MathOverflow); },
        };
        seen += 1;
    }
    let reserves_a = add_to_reserve(pool.reserves_a, total_required_a)?;
    let reserves_b = add_to_reserve(pool.reserves_b, total_required_b)?;
    let moved_a: u64 = reserves_a - pool.reserves_a;
    let moved_b: u64 = reserves_b - pool.reserves_b;

    let mut staged = copy_accounts(bin_accounts);
    current_bin_id = start_bin_id;
    let mut at: usize = 0;
    while at < count
        invariant
            at <= count,
            count == staged@.len(),
            *pool == *old(pool),
            *position == *old(position),
            bin_accounts@ == old(bin_accounts)@,
            credited(staged@, pool_key@, program_id@, pool.bin_step, at as int, current_bin_id, liquidity_per_bin)
                == credited(old(bin_accounts)@, pool_key@, program_id@, pool.bin_step, 0, start_bin_id, liquidity_per_bin),
        decreases count - at,
    {
        let expected = expected_bin_address(pool_key, current_bin_id, program_id);
        let (account, next_bin_id) = credit_bin(&staged[at], &expected, current_bin_id, pool.bin_step, liquidity_per_bin)?;
        staged.set(at, account);
        current_bin_id = next_bin_id;
        at += 1;
    }
    let total_liquidity_added_in_chunk = match liquidity_per_bin.checked_mul(count as u128) {
        Some(product) => product,
        None => { return Err(MyError::MathOverflow); },
    };
    let liquidity = match position.liquidity.checked_add(total_liquidity_added_in_chunk) {
        Some(sum) => sum,
        None => { return Err(MyError::MathOverflow); },
    };
    proof {
        lemma_credited_each(old(bin_accounts)@, pool_key@, program_id@, pool.bin_step, 0, start_bin_id, liquidity_per_bin);
        assert(credited(old(bin_accounts)@, pool_key@, program_id@, pool.bin_step, 0, start_bin_id, liquidity_per_bin) == Ok::<Seq<BinAccount>, MyError>(
            staged@,
        ));
        assert(total_liquidity_added_in_chunk == liquidity_per_bin * old(bin_accounts)@.len());
        assert forall|i: int| 0 <= i < old(bin_accounts)@.len() implies #[trigger] staged@[i] == with_liquidity(
            old(bin_accounts)@[i],
            (old(bin_accounts)@[i].bin.liquidity + liquidity_per_bin) as u128,
        ) by {}
    }
    pool.reserves_a = reserves_a;
    pool.reserves_b = reserves_b;
    position.liquidity = liquidity;
    *bin_accounts = staged;
    Ok((movement_of(moved_a), movement_of(moved_b)))
}

} // verus!
