//! The price curve and the amounts that follow from it.

use vstd::prelude::*;
use crate::constants::{BASIS_POINT_MAX, PRECISION};
use crate::errors::MyError;
use crate::address::{address_view, bin_address, expected_bin_address, holds_address};
use crate::state::{Address, Bin, BinAccount, Pool, Position};
use crate::theorems::lemma_walk_moves_on;

verus! {

/// `a * b / d` in 128 bits: refused where the product does not fit or the
/// divisor is zero.
pub open spec fn mul_div(a: u128, b: u128, d: u128) -> Result<u128, MyError> {
    if a * b > u128::MAX || d == 0 {
        Err(MyError::MathOverflow)
    } else {
        Ok(((a * b) / (d as int)) as u128)
    }
}

/// The squaring ladder: `res` times `base_fp` to the power `exp`, where
/// `base_fp` is scaled by `BASIS_POINT_MAX` and every product is cut back to
/// that scale at once. The base is squared once for every binary digit of
/// `exp`, the last included.
pub open spec fn power_ladder(res: u128, base_fp: u128, exp: u128) -> Result<u128, MyError>
    decreases exp,
{
    if exp == 0 {
        Ok(res)
    } else {
        let taken = if exp % 2 == 1 {
            mul_div(res, base_fp, BASIS_POINT_MAX)
        } else {
            Ok(res)
        };
        match (taken, mul_div(base_fp, base_fp, BASIS_POINT_MAX)) {
            (Ok(r), Ok(b)) => power_ladder(r, b, exp / 2),
            _ => Err(MyError::MathOverflow),
        }
    }
}

/// How far a bin lies from bin 0.
pub open spec fn distance(bin_id: i32) -> u128 {
    if bin_id >= 0 {
        bin_id as u128
    } else {
        (-bin_id) as u128
    }
}

/// The price of token A in token B at a bin, scaled by `PRECISION`:
/// `(1 + bin_step / 10000)` to the power `bin_id`, by the squaring ladder;
/// below bin 0, the reciprocal of the price at the mirrored bin.
pub open spec fn price_at_bin(bin_id: i32, bin_step: u16) -> Result<u128, MyError> {
    if bin_step == 0 {
        Err(MyError::InvalidBinStep)
    } else {
        match power_ladder(PRECISION, (BASIS_POINT_MAX + bin_step) as u128, distance(bin_id)) {
            Err(e) => Err(e),
            Ok(ratio) => if bin_id >= 0 {
                Ok(ratio)
            } else {
                mul_div(PRECISION, PRECISION, ratio)
            },
        }
    }
}

fn checked_mul_div(a: u128, b: u128, d: u128) -> (r: Result<u128, MyError>)
    ensures
        r == mul_div(a, b, d),
{
    match a.checked_mul(b) {
        None => Err(MyError::MathOverflow),
        Some(product) => match product.checked_div(d) {
            None => Err(MyError::MathOverflow),
            Some(quotient) => Ok(quotient),
        },
    }
}

fn power_fp(base: u128, exp: u128) -> (r: Result<u128, MyError>)
    ensures
        r == power_ladder(PRECISION, base, exp),
{
    let mut res: u128 = PRECISION;
    let mut base_fp: u128 = base;
    let mut exp_rem: u128 = exp;
    while exp_rem > 0
        invariant
            power_ladder(res, base_fp, exp_rem) == power_ladder(PRECISION, base, exp),
        decreases exp_rem,
    {
        if exp_rem % 2 == 1 {
            res = checked_mul_div(res, base_fp, BASIS_POINT_MAX)?;
        }
        base_fp = checked_mul_div(base_fp, base_fp, BASIS_POINT_MAX)?;
        exp_rem = exp_rem / 2;
    }
    Ok(res)
}

/// The price of token A in token B at bin `bin_id`, scaled by `PRECISION`.
pub fn get_price_at_bin(bin_id: i32, bin_step: u16) -> (r: Result<u128, MyError>)
    ensures
        r == price_at_bin(bin_id, bin_step),
        bin_step == 0 ==> r == Err::<u128, MyError>(MyError::InvalidBinStep),
        bin_step > 0 && bin_id == 0 ==> r == Ok::<u128, MyError>(PRECISION),
{
    if bin_step == 0 {
        return Err(MyError::InvalidBinStep);
    }
    let power: u128 = if bin_id >= 0 {
        bin_id as u128
    } else {
        (-(bin_id as i64)) as u128
    };
    let base: u128 = BASIS_POINT_MAX + bin_step as u128;
    let price_ratio = power_fp(base, power)?;
    if bin_id >= 0 {
        Ok(price_ratio)
    } else {
        checked_mul_div(PRECISION, PRECISION, price_ratio)
    }
}

/// What a bin asks for `liquidity`: token A alone above the active bin,
/// token B alone below it, valued at the bin's price, and both in the active
/// bin.
pub open spec fn required_for_bin(active_bin_id: i32, bin_id: i32, bin_step: u16, liquidity: u128) -> Result<(u128, u128), MyError> {
    if bin_id > active_bin_id {
        Ok((liquidity, 0u128))
    } else {
        match price_at_bin(bin_id, bin_step) {
            Err(e) => Err(e),
            Ok(price) => match mul_div(liquidity, price, PRECISION) {
                Err(e) => Err(e),
                Ok(in_b) => Ok((if bin_id == active_bin_id { liquidity } else { 0u128 }, in_b)),
            },
        }
    }
}

/// How many bins lie from `lower` to `upper`, one every `bin_step`.
pub open spec fn bin_count(lower: i32, upper: i32, bin_step: u16) -> int {
    if lower <= upper && bin_step > 0 {
        (upper - lower) / (bin_step as int) + 1
    } else {
        0
    }
}

/// Adds to `so_far` what the bins `bin_id`, `bin_id + bin_step`, ... up to
/// `upper` ask for `per_bin` each; refused as soon as a bin's requirement is
/// refused or a sum leaves 128 bits.
pub open spec fn range_amounts_from(active_bin_id: i32, bin_step: u16, bin_id: int, upper: i32, per_bin: u128, so_far: (u128, u128)) -> Result<(u128, u128), MyError>
    decreases (if bin_id <= upper { upper - bin_id + 1 } else { 0 }),
{
    if bin_id > upper || bin_step == 0 {
        Ok(so_far)
    } else {
        match required_for_bin(active_bin_id, bin_id as i32, bin_step, per_bin) {
            Err(e) => Err(e),
            Ok((in_a, in_b)) => if so_far.0 + in_a > u128::MAX || so_far.1 + in_b > u128::MAX {
                Err(MyError::MathOverflow)
            } else {
                range_amounts_from(active_bin_id, bin_step, bin_id + bin_step, upper, per_bin, ((so_far.0 + in_a) as u128, (so_far.1 + in_b) as u128))
            },
        }
    }
}

/// What the range from `lower` to `upper` asks for `amount`, split evenly
/// over its bins with the remainder dropped. An empty range asks nothing; a
/// range on a curve with step zero has no bins to split over and is refused.
pub open spec fn range_amounts(active_bin_id: i32, bin_step: u16, lower: i32, upper: i32, amount: u128) -> Result<(u128, u128), MyError> {
    if bin_step == 0 {
        Err(MyError::InvalidBinStep)
    } else if upper < lower {
        Ok((0u128, 0u128))
    } else {
        range_amounts_from(active_bin_id, bin_step, lower as int, upper, (amount as int / bin_count(lower, upper, bin_step)) as u128, (0u128, 0u128))
    }
}

/// An amount as 64 bits: refused where it does not fit.
pub open spec fn narrowed(x: u128) -> Result<u64, MyError> {
    if x > u64::MAX {
        Err(MyError::MathOverflow)
    } else {
        Ok(x as u64)
    }
}

/// What a deposit of `amount` over the bins from `lower` to `upper` asks
/// for: the range's amounts, refused where one of them leaves 64 bits.
pub open spec fn required_token_amounts(pool: Pool, lower: i32, upper: i32, amount: u64) -> Result<(u64, u64), MyError> {
    match range_amounts(pool.active_bin_id, pool.bin_step, lower, upper, amount as u128) {
        Ok((in_a, in_b)) => if in_a > u64::MAX || in_b > u64::MAX {
            Err(MyError::MathOverflow)
        } else {
            Ok((in_a as u64, in_b as u64))
        },
        Err(e) => Err(e),
    }
}

/// What `liquidity` of a position is worth: the amounts of the position's
/// own range.
pub open spec fn claimable_amounts(pool: Pool, position: Position, liquidity: u128) -> Result<(u128, u128), MyError> {
    range_amounts(pool.active_bin_id, pool.bin_step, position.lower_bin_id, position.upper_bin_id, liquidity)
}

/// The fee that `liquidity` has earned while the growth per unit rose from
/// `snapshot` to `growth`: the rise times the liquidity, cut back from the
/// scale of `PRECISION`; nothing where the growth lies below the snapshot or
/// the product leaves 128 bits.
pub open spec fn accrued_fee(growth: u128, snapshot: u128, liquidity: u128) -> u128 {
    if growth < snapshot || (growth - snapshot) * liquidity > u128::MAX {
        0
    } else {
        (((growth - snapshot) * liquidity) / (PRECISION as int)) as u128
    }
}

pub(crate) fn narrow(x: u128) -> (r: Result<u64, MyError>)
    ensures
        r == narrowed(x),
{
    if x > u64::MAX as u128 {
        Err(MyError::MathOverflow)
    } else {
        Ok(x as u64)
    }
}

/// The token amounts that bin `bin_id` asks for `liquidity_amount`.
pub fn calculate_required_for_bin(active_bin_id: i32, bin_id: i32, bin_step: u16, liquidity_amount: u128) -> (r: Result<(u128, u128), MyError>)
    ensures
        r == required_for_bin(active_bin_id, bin_id, bin_step, liquidity_amount),
{
    let mut required_a: u128 = 0;
    let mut required_b: u128 = 0;
    if bin_id > active_bin_id {
        required_a = liquidity_amount;
    } else if bin_id < active_bin_id {
        let price = get_price_at_bin(bin_id, bin_step)?;
        required_b = checked_mul_div(liquidity_amount, price, PRECISION)?;
    } else {
        let price = get_price_at_bin(bin_id, bin_step)?;
        required_a = liquidity_amount;
        required_b = checked_mul_div(liquidity_amount, price, PRECISION)?;
    }
    Ok((required_a, required_b))
}

pub(crate) fn sum_over_range(active_bin_id: i32, bin_step: u16, lower: i32, upper: i32, amount: u128) -> (r: Result<(u128, u128), MyError>)
    ensures
        r == range_amounts(active_bin_id, bin_step, lower, upper, amount),
{
    if bin_step == 0 {
        return Err(MyError::InvalidBinStep);
    }
    if upper < lower {
        return Ok((0, 0));
    }
    let width: u128 = (upper as i64 - lower as i64) as u128;
    let num_bins: u128 = width / (bin_step as u128) + 1;
    let liquidity_per_bin: u128 = amount / num_bins;
    assert(num_bins == bin_count(lower, upper, bin_step));
    let mut amount_a: u128 = 0;
    let mut amount_b: u128 = 0;
    let mut bin_id: i64 = lower as i64;
    while bin_id <= upper as i64
        invariant
            bin_step > 0,
            lower <= bin_id <= upper + bin_step,
            liquidity_per_bin == (amount as int / bin_count(lower, upper, bin_step)) as u128,
            range_amounts_from(active_bin_id, bin_step, bin_id as int, upper, liquidity_per_bin, (amount_a, amount_b))
                == range_amounts_from(active_bin_id, bin_step, lower as int, upper, liquidity_per_bin, (0u128, 0u128)),
        decreases upper + bin_step - bin_id,
    {
        let (in_a, in_b) = calculate_required_for_bin(active_bin_id, bin_id as i32, bin_step, liquidity_per_bin)?;
        amount_a = match amount_a.checked_add(in_a) {
            Some(sum) => sum,
            None => { return Err(MyError::MathOverflow); },
        };
        amount_b = match amount_b.checked_add(in_b) {
            Some(sum) => sum,
            None => { return Err(MyError::MathOverflow); },
        };
        bin_id = bin_id + bin_step as i64;
    }
    Ok((amount_a, amount_b))
}

/// The token amounts that a deposit of `amount_to_deposit` over the bins
/// from `lower_bin_id` to `upper_bin_id` asks for.
pub fn calculate_required_token_amounts(pool: &Pool, lower_bin_id: i32, upper_bin_id: i32, amount_to_deposit: u64) -> (r: Result<(u64, u64), MyError>)
    ensures
        r == required_token_amounts(*pool, lower_bin_id, upper_bin_id, amount_to_deposit),
        pool.bin_step == 0 ==> r == Err::<(u64, u64), MyError>(MyError::InvalidBinStep),
{
    let (amount_a, amount_b) = sum_over_range(pool.active_bin_id, pool.bin_step, lower_bin_id, upper_bin_id, amount_to_deposit as u128)?;
    let in_a = narrow(amount_a)?;
    let in_b = narrow(amount_b)?;
    Ok((in_a, in_b))
}

/// The token amounts that `liquidity_to_remove` of a position is worth at
/// the pool's active bin.
pub fn calculate_claimable_amounts(pool: &Pool, position: &Position, liquidity_to_remove: u128) -> (r: Result<(u128, u128), MyError>)
    ensures
        r == claimable_amounts(*pool, *position, liquidity_to_remove),
        pool.bin_step == 0 ==> r == Err::<(u128, u128), MyError>(MyError::InvalidBinStep),
{
    sum_over_range(pool.active_bin_id, pool.bin_step, position.lower_bin_id, position.upper_bin_id, liquidity_to_remove)
}

/// The fees in token A and in token B that a position has earned in a bin
/// since its snapshot. Never refused: a snapshot ahead of the bin, or a
/// product beyond 128 bits, earns nothing.
pub fn calculate_accrued_fees(position: &Position, bin: &Bin) -> (fees: (u128, u128))
    ensures
        fees.0 == accrued_fee(bin.fee_growth_per_unit_a, position.fee_growth_snapshot_a, position.liquidity),
        fees.1 == accrued_fee(bin.fee_growth_per_unit_b, position.fee_growth_snapshot_b, position.liquidity),
{
    (
        fee_since(bin.fee_growth_per_unit_a, position.fee_growth_snapshot_a, position.liquidity),
        fee_since(bin.fee_growth_per_unit_b, position.fee_growth_snapshot_b, position.liquidity),
    )
}

fn fee_since(growth: u128, snapshot: u128, liquidity: u128) -> (fee: u128)
    ensures
        fee == accrued_fee(growth, snapshot, liquidity),
{
    let fee_growth: u128 = match growth.checked_sub(snapshot) {
        Some(risen) => risen,
        None => 0,
    };
    let earned: u128 = match fee_growth.checked_mul(liquidity) {
        Some(product) => product,
        None => 0,
    };
    earned / PRECISION
}

/// One bin's answer to a sale: the bin afterwards, what it paid out, and
/// the input that is still unsold.
#[derive(Clone, Copy, Debug, PartialEq, Eq)]
pub struct BinFill {
    pub bin: Bin,
    pub amount_out: u128,
    pub remaining: u128,
}

/// The figures of one bin's part in a sale.
#[derive(Clone, Copy, Debug, PartialEq, Eq)]
pub struct Terms {
    /// What the bin pays out.
    pub amount_out: u128,
    /// The input that pays for it, before the fee.
    pub consumed: u128,
    /// The input that pays for it, fee included.
    pub charged: u128,
    /// What the fee adds to the bin's fee growth per unit.
    pub growth: u128,
}

/// The fee on `remaining`.
pub open spec fn fee_on(remaining: u128, fee_rate: u16) -> int {
    remaining * fee_rate / (BASIS_POINT_MAX as int)
}

/// What a bin pays out for `remaining`: the input after the fee, converted
/// at `num / den`, but no more than `capacity`.
pub open spec fn amount_out_of(capacity: u128, num: u128, den: u128, fee_rate: u16, remaining: u128) -> int {
    let offered = (remaining - fee_on(remaining, fee_rate)) * num / (den as int);
    if offered < capacity {
        offered
    } else {
        capacity as int
    }
}

/// The input that pays for `amount_out`, converted back at `den / num`.
pub open spec fn consumed_for(amount_out: int, num: u128, den: u128) -> int {
    amount_out * den / (num as int)
}

/// `consumed` with the fee put back on top.
pub open spec fn charged_for(consumed: int, fee_rate: u16) -> int {
    consumed * BASIS_POINT_MAX / (BASIS_POINT_MAX - fee_rate)
}

/// What a fee adds to the fee growth per unit of a bin with `liquidity`.
pub open spec fn growth_from(fee: int, liquidity: u128) -> int {
    fee * PRECISION / (liquidity as int)
}

/// Whether every step on the way to a bin's terms stays within 128 bits and
/// the input covers what is charged.
pub open spec fn terms_fit(capacity: u128, num: u128, den: u128, liquidity: u128, fee_rate: u16, remaining: u128) -> bool {
    let amount_out = amount_out_of(capacity, num, den, fee_rate, remaining);
    let consumed = consumed_for(amount_out, num, den);
    let charged = charged_for(consumed, fee_rate);
    &&& fee_rate < BASIS_POINT_MAX
    &&& num > 0
    &&& den > 0
    &&& liquidity > 0
    &&& remaining * fee_rate <= u128::MAX
    &&& (remaining - fee_on(remaining, fee_rate)) * num <= u128::MAX
    &&& amount_out * den <= u128::MAX
    &&& consumed * BASIS_POINT_MAX <= u128::MAX
    &&& (charged - consumed) * PRECISION <= u128::MAX
    &&& charged <= remaining
}

/// The terms on which a bin with `capacity` in the output token serves
/// `remaining`, where a unit of input is worth `num / den` units of output.
pub open spec fn terms_of(capacity: u128, num: u128, den: u128, liquidity: u128, fee_rate: u16, remaining: u128) -> Result<Terms, MyError> {
    let amount_out = amount_out_of(capacity, num, den, fee_rate, remaining);
    let consumed = consumed_for(amount_out, num, den);
    let charged = charged_for(consumed, fee_rate);
    if terms_fit(capacity, num, den, liquidity, fee_rate, remaining) {
        Ok(Terms {
            amount_out: amount_out as u128,
            consumed: consumed as u128,
            charged: charged as u128,
            growth: growth_from(charged - consumed, liquidity) as u128,
        })
    } else {
        Err(MyError::MathOverflow)
    }
}

/// What the bin at `bin_id` does to a sale of token A: it pays out token B
/// at its price, up to what its liquidity is worth in token B, takes the
/// input in as liquidity and credits the fee to its fee growth in token A.
/// A bin worth nothing in token B is passed over, once its price is known.
pub open spec fn fill_of_a(bin: Bin, bin_id: i32, bin_step: u16, fee_rate: u16, remaining: u128) -> Result<BinFill, MyError> {
    match price_at_bin(bin_id, bin_step) {
        Err(e) => Err(e),
        Ok(price) => match mul_div(bin.liquidity, price, PRECISION) {
            Err(e) => Err(e),
            Ok(capacity) => if capacity == 0 {
                Ok(BinFill { bin, amount_out: 0, remaining })
            } else {
                match terms_of(capacity, price, PRECISION, bin.liquidity, fee_rate, remaining) {
                    Err(e) => Err(e),
                    Ok(terms) => if bin.liquidity + terms.consumed > u128::MAX
                        || bin.fee_growth_per_unit_a + terms.growth > u128::MAX {
                        Err(MyError::MathOverflow)
                    } else {
                        Ok(BinFill {
                            bin: Bin {
                                liquidity: (bin.liquidity + terms.consumed) as u128,
                                fee_growth_per_unit_a: (bin.fee_growth_per_unit_a + terms.growth) as u128,
                                fee_growth_per_unit_b: bin.fee_growth_per_unit_b,
                            },
                            amount_out: terms.amount_out,
                            remaining: (remaining - terms.charged) as u128,
                        })
                    },
                }
            },
        },
    }
}

/// What the bin at `bin_id` does to a sale of token B: it pays out token A
/// at its price, up to its liquidity, gives that liquidity up and credits
/// the fee to its fee growth in token B. An empty bin is passed over.
pub open spec fn fill_of_b(bin: Bin, bin_id: i32, bin_step: u16, fee_rate: u16, remaining: u128) -> Result<BinFill, MyError> {
    if bin.liquidity == 0 {
        Ok(BinFill { bin, amount_out: 0, remaining })
    } else {
        match price_at_bin(bin_id, bin_step) {
            Err(e) => Err(e),
            Ok(price) => match terms_of(bin.liquidity, PRECISION, price, bin.liquidity, fee_rate, remaining) {
                Err(e) => Err(e),
                Ok(terms) => if bin.fee_growth_per_unit_b + terms.growth > u128::MAX {
                    Err(MyError::MathOverflow)
                } else {
                    Ok(BinFill {
                        bin: Bin {
                            liquidity: (bin.liquidity - terms.amount_out) as u128,
                            fee_growth_per_unit_a: bin.fee_growth_per_unit_a,
                            fee_growth_per_unit_b: (bin.fee_growth_per_unit_b + terms.growth) as u128,
                        },
                        amount_out: terms.amount_out,
                        remaining: (remaining - terms.charged) as u128,
                    })
                },
            },
        }
    }
}

/// The bin that a walk visits after `bin_id`: one step down for a sale of
/// token A, one step up for a sale of token B.
pub open spec fn next_bin(sell_a: bool, bin_id: i32, bin_step: u16) -> int {
    if sell_a {
        bin_id - bin_step
    } else {
        bin_id + bin_step
    }
}

/// Where a walk stands: the input still unsold, the amount paid out so
/// far, and the bin to visit next.
#[derive(Clone, Copy, Debug, PartialEq, Eq)]
pub struct WalkState {
    pub remaining: u128,
    pub amount_out: u128,
    pub bin_id: i32,
}

/// One visit of a walk. The account must hold the address expected of the
/// bin to visit; its bin serves what it can of the input, what it pays out
/// is added to the amount paid out, and the walk moves one bin on. The
/// result is the bin after the visit and where the walk stands then.
pub open spec fn visit(sell_a: bool, account: BinAccount, expected: Option<Seq<u8>>, bin_step: u16, fee_rate: u16, state: WalkState) -> Result<(Bin, WalkState), MyError> {
    if expected != Some(account.key@) {
        Err(MyError::InvalidBinAccount)
    } else {
        let fill = if sell_a {
            fill_of_a(account.bin, state.bin_id, bin_step, fee_rate, state.remaining)
        } else {
            fill_of_b(account.bin, state.bin_id, bin_step, fee_rate, state.remaining)
        };
        let next = next_bin(sell_a, state.bin_id, bin_step);
        match fill {
            Err(e) => Err(e),
            Ok(fill) => if state.amount_out + fill.amount_out > u128::MAX || next < i32::MIN || next > i32::MAX {
                Err(MyError::MathOverflow)
            } else {
                Ok(
                    (
                        fill.bin,
                        WalkState { remaining: fill.remaining, amount_out: (state.amount_out + fill.amount_out) as u128, bin_id: next as i32 },
                    ),
                )
            },
        }
    }
}

/// A sale from the account at index `at` on. While input is left, the next
/// account must be there and is visited as the account of the bin where the
/// walk stands. The result is the accounts after the sale, the amount paid
/// out and the bin where the walk came to rest.
pub open spec fn walk_from(
    sell_a: bool,
    pool_key: Seq<u8>,
    program_id: Seq<u8>,
    bin_step: u16,
    fee_rate: u16,
    accounts: Seq<BinAccount>,
    at: int,
    state: WalkState,
) -> Result<(Seq<BinAccount>, u128, i32), MyError>
    decreases accounts.len() - at,
{
    if state.remaining == 0 {
        Ok((accounts, state.amount_out, state.bin_id))
    } else if at < 0 || at >= accounts.len() {
        Err(MyError::InsufficientLiquidityForSwap)
    } else {
        match visit(sell_a, accounts[at], bin_address(pool_key, state.bin_id, program_id), bin_step, fee_rate, state) {
            Err(e) => Err(e),
            Ok((bin, next)) => walk_from(
                sell_a,
                pool_key,
                program_id,
                bin_step,
                fee_rate,
                accounts.update(at, BinAccount { key: accounts[at].key, bin }),
                at + 1,
                next,
            ),
        }
    }
}

/// A whole sale of `amount_in` against a pool, from its active bin on.
pub open spec fn walk(sell_a: bool, pool: Pool, pool_key: Seq<u8>, program_id: Seq<u8>, accounts: Seq<BinAccount>, amount_in: u64) -> Result<(Seq<BinAccount>, u128, i32), MyError> {
    walk_from(
        sell_a,
        pool_key,
        program_id,
        pool.bin_step,
        pool.fee_rate,
        accounts,
        0,
        WalkState { remaining: amount_in as u128, amount_out: 0, bin_id: pool.active_bin_id },
    )
}

/// A whole sale as the trader sees it: the walk, refused where what it pays
/// out leaves 64 bits.
pub open spec fn sale(sell_a: bool, pool: Pool, pool_key: Seq<u8>, program_id: Seq<u8>, accounts: Seq<BinAccount>, amount_in: u64) -> Result<(Seq<BinAccount>, u64, i32), MyError> {
    match walk(sell_a, pool, pool_key, program_id, accounts, amount_in) {
        Err(e) => Err(e),
        Ok((after, paid_out, bin_id)) => if paid_out > u64::MAX {
            Err(MyError::MathOverflow)
        } else {
            Ok((after, paid_out as u64, bin_id))
        },
    }
}

/// The fee on an amount is not negative, and within the amount where the
/// rate is at most everything.
pub proof fn lemma_fee_bounds(remaining: u128, fee_rate: u16)
    ensures
        0 <= fee_on(remaining, fee_rate),
        fee_rate <= BASIS_POINT_MAX ==> fee_on(remaining, fee_rate) <= remaining,
{
    assert(0 <= remaining * fee_rate) by (nonlinear_arith)
        requires
            0 <= remaining,
            0 <= fee_rate,
    ;
    if fee_rate <= BASIS_POINT_MAX {
        assert(remaining * fee_rate <= remaining * 10000) by (nonlinear_arith)
            requires
                0 <= fee_rate <= 10000,
                0 <= remaining,
        ;
    }
}

/// What is charged covers what is consumed.
pub proof fn lemma_charged_covers(consumed: int, fee_rate: u16)
    requires
        0 <= consumed,
        fee_rate < BASIS_POINT_MAX,
    ensures
        consumed <= charged_for(consumed, fee_rate),
{
    let keep = BASIS_POINT_MAX - fee_rate;
    assert(consumed * 10000 >= consumed * keep) by (nonlinear_arith)
        requires
            0 <= consumed,
            0 < keep <= 10000,
    ;
    assert((consumed * keep) / keep == consumed) by (nonlinear_arith)
        requires
            0 < keep,
    ;
    assert((consumed * 10000) / keep >= (consumed * keep) / keep) by (nonlinear_arith)
        requires
            consumed * 10000 >= consumed * keep,
            0 < keep,
    ;
}

/// Terms that fit are in order: the bin pays out no more than it can, what
/// is consumed is covered by what is charged, and what is charged by the
/// input.
pub proof fn lemma_terms_in_order(capacity: u128, num: u128, den: u128, liquidity: u128, fee_rate: u16, remaining: u128)
    requires
        terms_fit(capacity, num, den, liquidity, fee_rate, remaining),
    ensures
        terms_of(capacity, num, den, liquidity, fee_rate, remaining) matches Ok(terms) && {
            &&& terms.amount_out == amount_out_of(capacity, num, den, fee_rate, remaining)
            &&& terms.consumed == consumed_for(terms.amount_out as int, num, den)
            &&& terms.charged == charged_for(terms.consumed as int, fee_rate)
            &&& terms.amount_out <= capacity
            &&& terms.consumed <= terms.charged <= remaining
        },
{
    lemma_fee_bounds(remaining, fee_rate);
    let kept = remaining - fee_on(remaining, fee_rate);
    assert(0 <= kept * num / (den as int)) by (nonlinear_arith)
        requires
            0 <= kept,
            0 <= num,
            0 < den,
    ;
    let amount_out = amount_out_of(capacity, num, den, fee_rate, remaining);
    assert(0 <= amount_out * den / (num as int)) by (nonlinear_arith)
        requires
            0 <= amount_out,
            0 <= den,
            0 < num,
    ;
    let consumed = consumed_for(amount_out, num, den);
    lemma_charged_covers(consumed, fee_rate);
    let charged = charged_for(consumed, fee_rate);
    assert(0 <= (charged - consumed) * PRECISION / (liquidity as int)) by (nonlinear_arith)
        requires
            0 <= charged - consumed,
            0 < liquidity,
    ;
}

fn settle(capacity: u128, num: u128, den: u128, liquidity: u128, fee_rate: u16, remaining: u128) -> (r: Result<Terms, MyError>)
    ensures
        r == terms_of(capacity, num, den, liquidity, fee_rate, remaining),
        r matches Ok(terms) ==> terms.amount_out <= capacity && terms.consumed <= terms.charged <= remaining,
{
    if fee_rate as u128 >= BASIS_POINT_MAX || num == 0 || den == 0 || liquidity == 0 {
        return Err(MyError::MathOverflow);
    }
    let keep: u128 = BASIS_POINT_MAX - fee_rate as u128;
    let fee = checked_mul_div(remaining, fee_rate as u128, BASIS_POINT_MAX)?;
    proof {
        lemma_fee_bounds(remaining, fee_rate);
    }
    let amount_in_after_fee: u128 = remaining - fee;
    let offered = checked_mul_div(amount_in_after_fee, num, den)?;
    let amount_out: u128 = if offered < capacity {
        offered
    } else {
        capacity
    };
    let consumed = checked_mul_div(amount_out, den, num)?;
    let charged = checked_mul_div(consumed, BASIS_POINT_MAX, keep)?;
    proof {
        lemma_charged_covers(consumed as int, fee_rate);
    }
    let fee_to_add: u128 = charged - consumed;
    let growth = checked_mul_div(fee_to_add, PRECISION, liquidity)?;
    if charged > remaining {
        return Err(MyError::MathOverflow);
    }
    Ok(Terms { amount_out, consumed, charged, growth })
}

/// Serves a sale of token A from one bin.
pub fn sell_a_in_bin(bin: &Bin, bin_id: i32, bin_step: u16, fee_rate: u16, remaining: u128) -> (r: Result<BinFill, MyError>)
    ensures
        r == fill_of_a(*bin, bin_id, bin_step, fee_rate, remaining),
{
    let price = get_price_at_bin(bin_id, bin_step)?;
    let available_amount_b = checked_mul_div(bin.liquidity, price, PRECISION)?;
    if available_amount_b == 0 {
        return Ok(BinFill { bin: *bin, amount_out: 0, remaining });
    }
    let terms = settle(available_amount_b, price, PRECISION, bin.liquidity, fee_rate, remaining)?;
    let liquidity = match bin.liquidity.checked_add(terms.consumed) {
        Some(sum) => sum,
        None => { return Err(MyError::MathOverflow); },
    };
    let fee_growth = match bin.fee_growth_per_unit_a.checked_add(terms.growth) {
        Some(sum) => sum,
        None => { return Err(MyError::MathOverflow); },
    };
    Ok(BinFill {
        bin: Bin {
            liquidity,
            fee_growth_per_unit_a: fee_growth,
            fee_growth_per_unit_b: bin.fee_growth_per_unit_b,
        },
        amount_out: terms.amount_out,
        remaining: remaining - terms.charged,
    })
}

/// Serves a sale of token B from one bin.
pub fn sell_b_in_bin(bin: &Bin, bin_id: i32, bin_step: u16, fee_rate: u16, remaining: u128) -> (r: Result<BinFill, MyError>)
    ensures
        r == fill_of_b(*bin, bin_id, bin_step, fee_rate, remaining),
{
    let available_amount_a = bin.liquidity;
    if available_amount_a == 0 {
        return Ok(BinFill { bin: *bin, amount_out: 0, remaining });
    }
    let price = get_price_at_bin(bin_id, bin_step)?;
    let terms = settle(available_amount_a, PRECISION, price, bin.liquidity, fee_rate, remaining)?;
    let fee_growth = match bin.fee_growth_per_unit_b.checked_add(terms.growth) {
        Some(sum) => sum,
        None => { return Err(MyError::MathOverflow); },
    };
    Ok(BinFill {
        bin: Bin {
            liquidity: bin.liquidity - terms.amount_out,
            fee_growth_per_unit_a: bin.fee_growth_per_unit_a,
            fee_growth_per_unit_b: fee_growth,
        },
        amount_out: terms.amount_out,
        remaining: remaining - terms.charged,
    })
}

pub(crate) fn copy_accounts(accounts: &Vec<BinAccount>) -> (copy: Vec<BinAccount>)
    ensures
        copy@ == accounts@,
{
    let mut copy: Vec<BinAccount> = Vec::new();
    let mut i: usize = 0;
    while i < accounts.len()
        invariant
            i <= accounts.len(),
            copy@ == accounts@.subrange(0, i as int),
        decreases accounts.len() - i,
    {
        copy.push(accounts[i]);
        i += 1;
    }
    assert(accounts@.subrange(0, accounts.len() as int) == accounts@);
    copy
}

/// Visits one bin on a walk: checks the account against the address
/// expected of the bin, lets the bin serve the sale and moves the walk on.
pub fn visit_bin(sell_a: bool, account: &BinAccount, expected: &Option<Address>, bin_step: u16, fee_rate: u16, state: WalkState) -> (r: Result<(Bin, WalkState), MyError>)
    ensures
        r == visit(sell_a, *account, address_view(*expected), bin_step, fee_rate, state),
{
    if !holds_address(&account.key, expected) {
        return Err(MyError::InvalidBinAccount);
    }
    let fill = if sell_a {
        sell_a_in_bin(&account.bin, state.bin_id, bin_step, fee_rate, state.remaining)?
    } else {
        sell_b_in_bin(&account.bin, state.bin_id, bin_step, fee_rate, state.remaining)?
    };
    let amount_out = match state.amount_out.checked_add(fill.amount_out) {
        Some(sum) => sum,
        None => { return Err(MyError::MathOverflow); },
    };
    let stepped = if sell_a {
        state.bin_id.checked_sub(bin_step as i32)
    } else {
        state.bin_id.checked_add(bin_step as i32)
    };
    match stepped {
        Some(bin_id) => Ok((fill.bin, WalkState { remaining: fill.remaining, amount_out, bin_id })),
        None => Err(MyError::MathOverflow),
    }
}

/// Sells `amount_in` of token A for token B, bin by bin from the pool's
/// active bin downwards. On success the accounts hold the bins after the
/// sale and the result is the amount paid out and the bin below the last
/// one visited; on refusal the accounts are as they were. An amount paid
/// out that leaves 64 bits is refused.
pub fn swap_a_to_b(pool: &Pool, pool_key: &Address, amount_in: u64, bin_accounts: &mut Vec<BinAccount>, program_id: &Address) -> (r: Result<(u64, i32), MyError>)
    ensures
        match sale(true, *pool, pool_key@, program_id@, old(bin_accounts)@, amount_in) {
            Ok((accounts, amount_out, bin_id)) => {
                &&& r == Ok::<(u64, i32), MyError>((amount_out, bin_id))
                &&& final(bin_accounts)@ == accounts
            },
            Err(e) => r == Err::<(u64, i32), MyError>(e) && final(bin_accounts)@ == old(bin_accounts)@,
        },
        final(bin_accounts)@.len() == old(bin_accounts)@.len(),
        forall|i: int| 0 <= i < old(bin_accounts)@.len() ==> (#[trigger] final(bin_accounts)@[i]).key == old(bin_accounts)@[i].key,
        r matches Ok((_, bin_id)) ==> if amount_in > 0 {
            bin_id < pool.active_bin_id
        } else {
            bin_id == pool.active_bin_id
        },
{
    let start = WalkState { remaining: amount_in as u128, amount_out: 0, bin_id: pool.active_bin_id };
    proof {
        lemma_walk_moves_on(true, pool_key@, program_id@, pool.bin_step, pool.fee_rate, old(bin_accounts)@, 0, start);
    }
    let mut staged = copy_accounts(bin_accounts);
    let mut state = start;
    let mut at: usize = 0;
    while state.remaining > 0
        invariant
            at <= staged.len(),
            bin_accounts@ == old(bin_accounts)@,
            walk_from(true, pool_key@, program_id@, pool.bin_step, pool.fee_rate, staged@, at as int, state)
                == walk(true, *pool, pool_key@, program_id@, old(bin_accounts)@, amount_in),
        decreases staged.len() - at,
    {
        if at >= staged.len() {
            return Err(MyError::InsufficientLiquidityForSwap);
        }
        let account = staged[at];
        let expected = expected_bin_address(pool_key, state.bin_id, program_id);
        let (bin, next) = visit_bin(true, &account, &expected, pool.bin_step, pool.fee_rate, state)?;
        staged.set(at, BinAccount { key: account.key, bin });
        state = next;
        at += 1;
    }
    let amount_out = narrow(state.amount_out)?;
    *bin_accounts = staged;
    Ok((amount_out, state.bin_id))
}

/// Sells `amount_in` of token B for token A, bin by bin from the pool's
/// active bin upwards. On success the accounts hold the bins after the
/// sale and the result is the amount paid out and the bin above the last
/// one visited; on refusal the accounts are as they were. An amount paid
/// out that leaves 64 bits is refused.
pub fn swap_b_to_a(pool: &Pool, pool_key: &Address, amount_in: u64, bin_accounts: &mut Vec<BinAccount>, program_id: &Address) -> (r: Result<(u64, i32), MyError>)
    ensures
        match sale(false, *pool, pool_key@, program_id@, old(bin_accounts)@, amount_in) {
            Ok((accounts, amount_out, bin_id)) => {
                &&& r == Ok::<(u64, i32), MyError>((amount_out, bin_id))
                &&& final(bin_accounts)@ == accounts
            },
            Err(e) => r == Err::<(u64, i32), MyError>(e) && final(bin_accounts)@ == old(bin_accounts)@,
        },
        final(bin_accounts)@.len() == old(bin_accounts)@.len(),
        forall|i: int| 0 <= i < old(bin_accounts)@.len() ==> (#[trigger] final(bin_accounts)@[i]).key == old(bin_accounts)@[i].key,
        r matches Ok((_, bin_id)) ==> if amount_in > 0 {
            bin_id > pool.active_bin_id
        } else {
            bin_id == pool.active_bin_id
        },
{
    let start = WalkState { remaining: amount_in as u128, amount_out: 0, bin_id: pool.active_bin_id };
    proof {
        lemma_walk_moves_on(false, pool_key@, program_id@, pool.bin_step, pool.fee_rate, old(bin_accounts)@, 0, start);
    }
    let mut staged = copy_accounts(bin_accounts);
    let mut state = start;
    let mut at: usize = 0;
    while state.remaining > 0
        invariant
            at <= staged.len(),
            bin_accounts@ == old(bin_accounts)@,
            walk_from(false, pool_key@, program_id@, pool.bin_step, pool.fee_rate, staged@, at as int, state)
                == walk(false, *pool, pool_key@, program_id@, old(bin_accounts)@, amount_in),
        decreases staged.len() - at,
    {
        if at >= staged.len() {
            return Err(MyError::InsufficientLiquidityForSwap);
        }
        let account = staged[at];
        let expected = expected_bin_address(pool_key, state.bin_id, program_id);
        let (bin, next) = visit_bin(false, &account, &expected, pool.bin_step, pool.fee_rate, state)?;
        staged.set(at, BinAccount { key: account.key, bin });
        state = next;
        at += 1;
    }
    let amount_out = narrow(state.amount_out)?;
    *bin_accounts = staged;
    Ok((amount_out, state.bin_id))
}

} // verus!
