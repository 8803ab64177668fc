//! What holds of the price curve and of the operations, whatever the
//! inputs.

use vstd::prelude::*;
use vstd::arithmetic::div_mod::{lemma_div_denominator, lemma_div_is_ordered_by_denominator, lemma_fundamental_div_mod, lemma_mod_breakdown};
use vstd::arithmetic::power::{lemma_pow0, lemma_pow1, lemma_pow_adds, lemma_pow_positive, pow};
use crate::constants::{BASIS_POINT_MAX, PRECISION};
use crate::errors::MyError;
use crate::instructions::add_liquidity::{amount_of, deposit, lemma_credited_each};
use crate::instructions::burn_empty_position::may_close;
use crate::instructions::remove_liquidity::withdrawal;
use crate::instructions::swap::trade;
use crate::instructions::modify_liquidity::{claim, rebalance, standing, Rebalance};
use crate::address::bin_address;
use crate::math::{bin_count, claimable_amounts, distance, fee_on, fill_of_a, fill_of_b, lemma_fee_bounds, lemma_terms_in_order, mul_div, next_bin, power_ladder, price_at_bin, range_amounts, required_token_amounts, sale, terms_fit, visit, walk, walk_from, WalkState};
use crate::state::{Address, Bin, BinAccount, Pool, Position};

verus! {

/// At bin 0 every curve stands at `PRECISION`.
pub proof fn lemma_price_at_origin(bin_step: u16)
    requires
        bin_step > 0,
    ensures
        price_at_bin(0, bin_step) == Ok::<u128, MyError>(PRECISION),
{
}

/// A curve with step zero has no price anywhere.
pub proof fn lemma_zero_step_has_no_price(bin_id: i32)
    ensures
        price_at_bin(bin_id, 0) == Err::<u128, MyError>(MyError::InvalidBinStep),
{
}

/// A product cut back to scale does not fall, and rises where the factor
/// lies above the scale.
proof fn lemma_scaled_product(x: u128, factor: u128)
    requires
        factor >= BASIS_POINT_MAX,
    ensures
        x * factor / (BASIS_POINT_MAX as int) >= x,
        factor > BASIS_POINT_MAX && x >= BASIS_POINT_MAX ==> x * factor / (BASIS_POINT_MAX as int) > x,
{
    assert(x * factor >= x * 10000) by (nonlinear_arith)
        requires
            factor >= 10000,
            x >= 0,
    ;
    if factor > BASIS_POINT_MAX && x >= BASIS_POINT_MAX {
        assert(x * factor >= x * 10000 + 10000) by (nonlinear_arith)
            requires
                factor >= 10001,
                x >= 10000,
        ;
    }
}

/// The ladder never ends below where it starts, and ends above it once
/// there is a power to take.
proof fn lemma_ladder_rises(res: u128, base_fp: u128, exp: u128)
    requires
        base_fp >= BASIS_POINT_MAX,
    ensures
        power_ladder(res, base_fp, exp) matches Ok(r) ==> r >= res && (exp > 0 && base_fp > BASIS_POINT_MAX && res >= BASIS_POINT_MAX ==> r > res),
    decreases exp,
{
    if exp > 0 {
        lemma_scaled_product(res, base_fp);
        lemma_scaled_product(base_fp, base_fp);
        if exp % 2 == 1 {
            if let (Ok(r), Ok(b)) = (mul_div(res, base_fp, BASIS_POINT_MAX), mul_div(base_fp, base_fp, BASIS_POINT_MAX)) {
                lemma_ladder_rises(r, b, exp / 2);
            }
        } else {
            if let Ok(b) = mul_div(base_fp, base_fp, BASIS_POINT_MAX) {
                lemma_ladder_rises(res, b, exp / 2);
            }
        }
    }
}

/// At and above bin 0 a price is at least `PRECISION`, and more above bin
/// 0; below bin 0 it is less than `PRECISION`.
pub proof fn lemma_price_side(bin_id: i32, bin_step: u16)
    ensures
        price_at_bin(bin_id, bin_step) matches Ok(price) ==> {
            &&& bin_id == 0 ==> price == PRECISION
            &&& bin_id > 0 ==> price > PRECISION
            &&& bin_id < 0 ==> price < PRECISION
        },
{
    if bin_step > 0 {
        let base = (BASIS_POINT_MAX + bin_step) as u128;
        lemma_ladder_rises(PRECISION, base, distance(bin_id));
        if let Ok(ratio) = power_ladder(PRECISION, base, distance(bin_id)) {
            if bin_id < 0 {
                assert(ratio > PRECISION);
                let unit: int = PRECISION as int;
                assert(unit * unit / (ratio as int) < unit) by (nonlinear_arith)
                    requires
                        ratio > unit,
                        unit > 0,
                ;
            }
        }
    }
}

/// Prices rise through bin 0: a bin at or below bin 0 is cheaper than any
/// bin above it that is at or above bin 0.
pub proof fn lemma_price_rises_through_origin(lower: i32, upper: i32, bin_step: u16)
    requires
        lower < upper,
        lower <= 0 <= upper,
    ensures
        (price_at_bin(lower, bin_step), price_at_bin(upper, bin_step)) matches (Ok(below), Ok(above)) ==> below < above,
{
    lemma_price_side(lower, bin_step);
    lemma_price_side(upper, bin_step);
}

/// A bin and its mirror image have either both a price or both none, and
/// the product of the two misses the square of `PRECISION` by less than the
/// price of the bin that is not below bin 0, from below.
pub proof fn lemma_price_reciprocal(bin_id: i32, bin_step: u16)
    requires
        bin_id >= 0,
    ensures
        match price_at_bin(bin_id, bin_step) {
            Ok(above) => price_at_bin((-bin_id) as i32, bin_step) matches Ok(below) && above * below <= PRECISION * PRECISION < above * below + above,
            Err(e) => price_at_bin((-bin_id) as i32, bin_step) == Err::<u128, MyError>(e),
        },
{
    if bin_step > 0 {
        let base = (BASIS_POINT_MAX + bin_step) as u128;
        assert(distance(bin_id) == distance((-bin_id) as i32));
        lemma_ladder_rises(PRECISION, base, distance(bin_id));
        if let Ok(above) = power_ladder(PRECISION, base, distance(bin_id)) {
            let square: int = PRECISION * PRECISION;
            assert(square == 1_000_000_000_000_000_000_000_000int) by (nonlinear_arith)
                requires
                    square == 1_000_000_000_000int * 1_000_000_000_000int,
            ;
            lemma_fundamental_div_mod(square, above as int);
            let below = square / (above as int);
            assert(0 <= square % (above as int) < above);
            assert(0 <= below <= square) by (nonlinear_arith)
                requires
                    below == square / (above as int),
                    above > 0,
                    square >= 0,
            ;
            assert(above * below == (above as int) * (square / (above as int)));
        }
    }
}

/// A quotient rounded down, times the divisor, is no more than the
/// dividend.
proof fn lemma_floor_times_divisor(x: int, d: int)
    requires
        x >= 0,
        d > 0,
    ensures
        0 <= x / d,
        (x / d) * d <= x,
{
    lemma_fundamental_div_mod(x, d);
    assert(0 <= x / d && (x / d) * d <= x) by (nonlinear_arith)
        requires
            x == d * (x / d) + x % d,
            0 <= x % d < d,
            x >= 0,
            d > 0,
    ;
}

/// Squaring keeps a base below the power it stands for: if `base` times
/// `scale_below` is at most `power`, then the square of `base`, cut back
/// once, times the scale of the square, is at most the square of `power`.
proof fn lemma_square_below_power(squared: int, base: int, scale_below: int, power: int)
    requires
        0 <= squared,
        0 <= base,
        0 <= scale_below,
        squared * 10000 <= base * base,
        base * scale_below <= power,
    ensures
        squared * (scale_below * (10000 * scale_below)) <= power * power,
{
    let both = scale_below * scale_below;
    assert(both >= 0) by (nonlinear_arith)
        requires
            both == scale_below * scale_below,
    ;
    assert((squared * 10000) * both <= (base * base) * both) by (nonlinear_arith)
        requires
            squared * 10000 <= base * base,
            both >= 0,
    ;
    assert((base * base) * both == (base * scale_below) * (base * scale_below)) by (nonlinear_arith)
        requires
            both == scale_below * scale_below,
    ;
    assert((base * scale_below) * (base * scale_below) <= power * power) by (nonlinear_arith)
        requires
            0 <= base * scale_below <= power,
    ;
    assert(0 <= base * scale_below) by (nonlinear_arith)
        requires
            0 <= base,
            0 <= scale_below,
    ;
    assert(squared * (scale_below * (10000 * scale_below)) == (squared * 10000) * both) by (nonlinear_arith)
        requires
            both == scale_below * scale_below,
    ;
}

/// One power taken keeps the ladder below the exact product.
proof fn lemma_taken_below_power(end: int, taken: int, start: int, base: int, scale_below: int, power: int, scale_rest: int, power_rest: int)
    requires
        0 <= end,
        0 <= taken,
        0 <= start,
        0 <= base,
        0 <= scale_below,
        0 <= scale_rest,
        0 <= power_rest,
        end * scale_rest <= taken * power_rest,
        taken * 10000 <= start * base,
        base * scale_below <= power,
    ensures
        end * (scale_rest * (10000 * scale_below)) <= start * (power_rest * power),
{
    assert((end * scale_rest) * (10000 * scale_below) <= (taken * power_rest) * (10000 * scale_below)) by (nonlinear_arith)
        requires
            end * scale_rest <= taken * power_rest,
            0 <= scale_below,
    ;
    assert((taken * power_rest) * (10000 * scale_below) == (taken * 10000) * (power_rest * scale_below)) by (nonlinear_arith);
    assert(0 <= power_rest * scale_below) by (nonlinear_arith)
        requires
            0 <= power_rest,
            0 <= scale_below,
    ;
    assert((taken * 10000) * (power_rest * scale_below) <= (start * base) * (power_rest * scale_below)) by (nonlinear_arith)
        requires
            taken * 10000 <= start * base,
            0 <= power_rest * scale_below,
    ;
    assert((start * base) * (power_rest * scale_below) == (start * power_rest) * (base * scale_below)) by (nonlinear_arith);
    assert(0 <= start * power_rest) by (nonlinear_arith)
        requires
            0 <= start,
            0 <= power_rest,
    ;
    assert((start * power_rest) * (base * scale_below) <= (start * power_rest) * power) by (nonlinear_arith)
        requires
            base * scale_below <= power,
            0 <= start * power_rest,
    ;
    assert((end * scale_rest) * (10000 * scale_below) == end * (scale_rest * (10000 * scale_below))) by (nonlinear_arith);
    assert((start * power_rest) * power == start * (power_rest * power)) by (nonlinear_arith);
}

/// Rounding only ever lowers the ladder. Where `base_fp` stands for the
/// exact base to the power `unit` (it is at most that power, at the scale
/// of `unit - 1` cuts), the ladder's end stands for at most the start times
/// the exact base to the power `unit * exp`.
proof fn lemma_ladder_below_power(res: u128, base_fp: u128, exp: u128, unit: nat, exact_base: int)
    requires
        unit >= 1,
        exact_base > 0,
        base_fp * pow(10000, (unit - 1) as nat) <= pow(exact_base, unit),
    ensures
        power_ladder(res, base_fp, exp) matches Ok(end) ==> end * pow(10000, unit * (exp as nat)) <= res * pow(exact_base, unit * (exp as nat)),
    decreases exp,
{
    let scale_below = pow(10000, (unit - 1) as nat);
    let power = pow(exact_base, unit);
    lemma_pow_positive(10000, (unit - 1) as nat);
    lemma_pow_positive(exact_base, unit);
    if exp == 0 {
        assert(unit * 0 == 0) by (nonlinear_arith);
        lemma_pow0(10000);
        lemma_pow0(exact_base);
    } else if let Ok(end) = power_ladder(res, base_fp, exp) {
        let half = (exp / 2) as nat;
        let squared = mul_div(base_fp, base_fp, BASIS_POINT_MAX)->Ok_0;
        let taken = if exp % 2 == 1 { mul_div(res, base_fp, BASIS_POINT_MAX)->Ok_0 } else { res };
        // the squared base stands for the exact base to the power `2 * unit`
        lemma_floor_times_divisor(base_fp * base_fp, 10000);
        lemma_square_below_power(squared as int, base_fp as int, scale_below, power);
        lemma_pow_adds(10000, (unit - 1) as nat, 1);
        lemma_pow1(10000);
        lemma_pow_adds(10000, (unit - 1) as nat, unit);
        lemma_pow_adds(exact_base, unit, unit);
        assert(pow(10000, unit) == scale_below * 10000);
        assert(pow(10000, (2 * unit - 1) as nat) == scale_below * (10000 * scale_below)) by {
            assert((unit - 1) + unit == 2 * unit - 1);
            assert(scale_below * (scale_below * 10000) == scale_below * (10000 * scale_below)) by (nonlinear_arith);
        }
        assert(pow(exact_base, 2 * unit) == power * power) by {
            assert(unit + unit == 2 * unit);
        }
        lemma_ladder_below_power(taken, squared, (exp / 2) as u128, 2 * unit, exact_base);
        let rest = (2 * unit) * half;
        let scale_rest = pow(10000, rest);
        let power_rest = pow(exact_base, rest);
        lemma_pow_positive(10000, rest);
        lemma_pow_positive(exact_base, rest);
        assert(end * scale_rest <= taken * power_rest);
        if exp % 2 == 1 {
            assert(unit * (exp as nat) == rest + unit) by (nonlinear_arith)
                requires
                    rest == (2 * unit) * half,
                    exp == 2 * half + 1,
            ;
            lemma_pow_adds(10000, rest, unit);
            lemma_pow_adds(exact_base, rest, unit);
            lemma_floor_times_divisor(res * base_fp, 10000);
            assert(res * base_fp >= 0) by (nonlinear_arith)
                requires
                    res >= 0,
                    base_fp >= 0,
            ;
            lemma_taken_below_power(end as int, taken as int, res as int, base_fp as int, scale_below, power, scale_rest, power_rest);
            assert(pow(10000, unit * (exp as nat)) == scale_rest * (10000 * scale_below)) by (nonlinear_arith)
                requires
                    pow(10000, unit * (exp as nat)) == scale_rest * pow(10000, unit),
                    pow(10000, unit) == scale_below * 10000,
            ;
        } else {
            assert(unit * (exp as nat) == rest) by (nonlinear_arith)
                requires
                    rest == (2 * unit) * half,
                    exp == 2 * half,
            ;
        }
    }
}

/// At and above bin 0 a price never exceeds the exact power that it stands
/// for: the price, scaled by `PRECISION`, is at most `PRECISION` times
/// `(1 + bin_step / 10000)` to the power `bin_id`. Rounding only lowers it.
pub proof fn lemma_price_below_exact_power(bin_id: i32, bin_step: u16)
    requires
        bin_id >= 0,
    ensures
        price_at_bin(bin_id, bin_step) matches Ok(price) ==> price * pow(10000, bin_id as nat) <= PRECISION * pow(10000 + bin_step, bin_id as nat),
{
    if bin_step > 0 {
        let exact_base: int = 10000 + bin_step;
        lemma_pow0(10000);
        lemma_pow1(exact_base);
        assert(((BASIS_POINT_MAX + bin_step) as u128) * 1 <= exact_base);
        lemma_ladder_below_power(PRECISION, (BASIS_POINT_MAX + bin_step) as u128, distance(bin_id), 1, exact_base);
        assert(1 * (bin_id as nat) == bin_id as nat);
    }
}

/// A product that reaches a multiple of the scale, cut back to scale,
/// reaches the multiplier.
proof fn lemma_scaled_product_reaches(x: int, factor: int, floor: int)
    requires
        x * factor >= 10000 * floor,
    ensures
        x * factor / 10000 >= floor,
{
    assert(x * factor / 10000 >= floor) by (nonlinear_arith)
        requires
            x * factor >= 10000 * floor,
    ;
}

/// The ladder keeps above the straight line. Where `base_fp` lies at least
/// `unit` steps above the scale and `res` at least `taken` steps above
/// `PRECISION`, a step of `PRECISION` being `100_000_000` times `bin_step`,
/// the ladder ends at least `taken + unit * exp` steps above `PRECISION`.
proof fn lemma_ladder_above_line(res: u128, base_fp: u128, exp: u128, unit: nat, taken: nat, bin_step: int)
    requires
        bin_step >= 0,
        base_fp >= 10000 + unit * bin_step,
        res >= PRECISION + 100_000_000 * (taken * bin_step),
    ensures
        power_ladder(res, base_fp, exp) matches Ok(end) ==> end >= PRECISION + 100_000_000 * ((taken + unit * (exp as nat)) * bin_step),
    decreases exp,
{
    if exp == 0 {
        assert(unit * 0 == 0) by (nonlinear_arith);
    } else if let Ok(end) = power_ladder(res, base_fp, exp) {
        let half = (exp / 2) as nat;
        let us = unit * bin_step;
        let ts = taken * bin_step;
        assert(us >= 0 && ts >= 0) by (nonlinear_arith)
            requires
                us == unit * bin_step,
                ts == taken * bin_step,
                bin_step >= 0,
        ;
        let squared = mul_div(base_fp, base_fp, BASIS_POINT_MAX)->Ok_0;
        assert(base_fp * base_fp >= 10000 * (10000 + 2 * us)) by (nonlinear_arith)
            requires
                base_fp >= 10000 + us,
                us >= 0,
        ;
        lemma_scaled_product_reaches(base_fp as int, base_fp as int, 10000 + 2 * us);
        assert((2 * unit) * bin_step == 2 * us) by (nonlinear_arith)
            requires
                us == unit * bin_step,
        ;
        if exp % 2 == 1 {
            let next = mul_div(res, base_fp, BASIS_POINT_MAX)->Ok_0;
            assert(res * base_fp >= 10000 * (1_000_000_000_000 + 100_000_000 * (ts + us))) by (nonlinear_arith)
                requires
                    res >= 1_000_000_000_000 + 100_000_000 * ts,
                    base_fp >= 10000 + us,
                    ts >= 0,
                    us >= 0,
            ;
            lemma_scaled_product_reaches(res as int, base_fp as int, 1_000_000_000_000 + 100_000_000 * (ts + us));
            assert((taken + unit) * bin_step == ts + us) by (nonlinear_arith)
                requires
                    us == unit * bin_step,
                    ts == taken * bin_step,
            ;
            lemma_ladder_above_line(next, squared, (exp / 2) as u128, 2 * unit, taken + unit, bin_step);
            assert(taken + unit + (2 * unit) * half == taken + unit * (exp as nat)) by (nonlinear_arith)
                requires
                    exp == 2 * half + 1,
            ;
        } else {
            lemma_ladder_above_line(res, squared, (exp / 2) as u128, 2 * unit, taken, bin_step);
            assert(taken + (2 * unit) * half == taken + unit * (exp as nat)) by (nonlinear_arith)
                requires
                    exp == 2 * half,
            ;
        }
    }
}

/// At and above bin 0 a price never falls below the straight line through
/// bin 0: it is at least `PRECISION` times `1 + bin_id * bin_step / 10000`.
/// With the exact power above it, this pins the price between simple and
/// compound growth.
pub proof fn lemma_price_above_straight_line(bin_id: i32, bin_step: u16)
    requires
        bin_id >= 0,
    ensures
        price_at_bin(bin_id, bin_step) matches Ok(price) ==> price >= PRECISION + 100_000_000 * (bin_id * bin_step),
{
    if bin_step > 0 {
        assert(1 * (bin_step as int) == bin_step && 0 * (bin_step as int) == 0);
        lemma_ladder_above_line(PRECISION, (BASIS_POINT_MAX + bin_step) as u128, distance(bin_id), 1, 0, bin_step as int);
        assert((0 + 1 * (bin_id as nat)) * (bin_step as int) == bin_id * bin_step) by (nonlinear_arith)
            requires
                bin_id >= 0,
        ;
    }
}

/// How far a price can dip below the price of a lower bin, at and above
/// bin 0. With every price between the straight line and the exact power,
/// the price at `lower`, at the scale of `10000` to the power `lower`,
/// exceeds the price at `upper` by no more than compound growth up to
/// `lower` exceeds simple growth up to `upper`. Where it does not exceed it
/// (as between bins 1 and 2 at any step), the price rises strictly.
pub proof fn lemma_price_dip_is_bounded(lower: i32, upper: i32, bin_step: u16)
    requires
        0 <= lower < upper,
    ensures
        (price_at_bin(lower, bin_step), price_at_bin(upper, bin_step)) matches (Ok(below), Ok(above)) ==> {
            let scale = pow(10000, lower as nat);
            let compound = PRECISION * pow(10000 + bin_step, lower as nat);
            let simple = (PRECISION + 100_000_000 * (upper * bin_step)) * scale;
            &&& below * scale <= above * scale + (compound - simple)
            &&& compound < simple ==> below < above
        },
{
    if let (Ok(below), Ok(above)) = (price_at_bin(lower, bin_step), price_at_bin(upper, bin_step)) {
        let scale = pow(10000, lower as nat);
        let compound = PRECISION * pow(10000 + bin_step, lower as nat);
        let line: int = PRECISION + 100_000_000 * (upper * bin_step);
        lemma_price_below_exact_power(lower, bin_step);
        lemma_price_above_straight_line(upper, bin_step);
        lemma_pow_positive(10000, lower as nat);
        assert(above * scale >= line * scale) by (nonlinear_arith)
            requires
                above >= line,
                scale > 0,
        ;
        if compound < line * scale {
            assert(below < above) by (nonlinear_arith)
                requires
                    below * scale < above * scale,
                    scale > 0,
            ;
        }
    }
}

/// Bin 1 is cheaper than every bin above it.
pub proof fn lemma_price_rises_from_bin_one(upper: i32, bin_step: u16)
    requires
        upper >= 2,
    ensures
        (price_at_bin(1, bin_step), price_at_bin(upper, bin_step)) matches (Ok(below), Ok(above)) ==> below < above,
{
    if bin_step > 0 {
        lemma_price_dip_is_bounded(1, upper, bin_step);
        lemma_pow1(10000);
        lemma_pow1(10000 + bin_step);
        let compound = PRECISION * pow(10000 + bin_step, 1);
        let simple = (PRECISION + 100_000_000 * (upper * bin_step)) * pow(10000, 1);
        assert(compound < simple) by (nonlinear_arith)
            requires
                compound == 1_000_000_000_000 * (10000 + bin_step),
                simple == (1_000_000_000_000 + 100_000_000 * (upper * bin_step)) * 10000,
                upper >= 2,
                bin_step > 0,
        ;
    }
}

/// Whether every binary digit that is set in `a` is set in `b`.
pub open spec fn digits_within(a: u128, b: u128) -> bool
    decreases a,
{
    a == 0 || (a % 2 <= b % 2 && digits_within(a / 2, b / 2))
}

proof fn lemma_no_digits_within_zero(a: u128)
    requires
        digits_within(a, 0),
    ensures
        a == 0,
    decreases a,
{
    if a > 0 {
        lemma_no_digits_within_zero(a / 2);
    }
}

/// A larger start gives a larger product, cut back to scale.
proof fn lemma_scaled_product_order(x: u128, y: u128, factor: u128)
    requires
        x <= y,
        factor >= BASIS_POINT_MAX,
    ensures
        x * factor / (BASIS_POINT_MAX as int) <= y * factor / (BASIS_POINT_MAX as int),
        x < y ==> x * factor / (BASIS_POINT_MAX as int) < y * factor / (BASIS_POINT_MAX as int),
{
    assert(x * factor <= y * factor) by (nonlinear_arith)
        requires
            x <= y,
            factor >= 0,
    ;
    if x < y {
        assert(x * factor + 10000 <= y * factor) by (nonlinear_arith)
            requires
                x + 1 <= y,
                factor >= 10000,
        ;
    }
}

/// Two ladders on one base: the one that starts no lower and takes every
/// power that the other takes ends no lower, and ends higher as soon as it
/// starts higher or takes one power more.
proof fn lemma_ladder_order(low: u128, high: u128, base_fp: u128, fewer: u128, more: u128)
    requires
        BASIS_POINT_MAX <= low <= high,
        base_fp > BASIS_POINT_MAX,
        digits_within(fewer, more),
    ensures
        (power_ladder(low, base_fp, fewer), power_ladder(high, base_fp, more)) matches (Ok(below), Ok(above)) ==> below <= above && (low < high
            || fewer != more ==> below < above),
    decreases more,
{
    if more == 0 {
        lemma_no_digits_within_zero(fewer);
    } else if fewer == 0 {
        lemma_ladder_rises(high, base_fp, more);
    } else {
        lemma_scaled_product(low, base_fp);
        lemma_scaled_product(high, base_fp);
        lemma_scaled_product(base_fp, base_fp);
        lemma_scaled_product_order(low, high, base_fp);
        let squared = mul_div(base_fp, base_fp, BASIS_POINT_MAX);
        let low_taken = if fewer % 2 == 1 { mul_div(low, base_fp, BASIS_POINT_MAX) } else { Ok(low) };
        let high_taken = if more % 2 == 1 { mul_div(high, base_fp, BASIS_POINT_MAX) } else { Ok(high) };
        if let (Ok(next_low), Ok(next_high), Ok(next_base)) = (low_taken, high_taken, squared) {
            lemma_ladder_order(next_low, next_high, next_base, fewer / 2, more / 2);
        }
    }
}

/// Above bin 0, a bin is cheaper than every bin whose id has all its binary
/// digits and more. (Between other bins the ladder's rounding can make the
/// price dip.)
pub proof fn lemma_price_rises_with_digits(lower: i32, upper: i32, bin_step: u16)
    requires
        0 <= lower < upper,
        digits_within(lower as u128, upper as u128),
    ensures
        (price_at_bin(lower, bin_step), price_at_bin(upper, bin_step)) matches (Ok(below), Ok(above)) ==> below < above,
{
    if bin_step > 0 {
        lemma_ladder_order(PRECISION, PRECISION, (BASIS_POINT_MAX + bin_step) as u128, lower as u128, upper as u128);
    }
}

/// Below bin 0 the mirror image holds, though no longer strictly: a bin is
/// no dearer than every bin whose distance from bin 0 has only binary
/// digits of its own.
pub proof fn lemma_price_does_not_fall_with_digits(lower: i32, upper: i32, bin_step: u16)
    requires
        lower < upper <= 0,
        digits_within(distance(upper), distance(lower)),
    ensures
        (price_at_bin(lower, bin_step), price_at_bin(upper, bin_step)) matches (Ok(below), Ok(above)) ==> below <= above,
{
    if bin_step > 0 {
        let base = (BASIS_POINT_MAX + bin_step) as u128;
        lemma_ladder_order(PRECISION, PRECISION, base, distance(upper), distance(lower));
        lemma_ladder_rises(PRECISION, base, distance(upper));
        lemma_price_side(lower, bin_step);
        if let (Ok(far), Ok(near)) = (power_ladder(PRECISION, base, distance(lower)), power_ladder(PRECISION, base, distance(upper))) {
            let square: int = PRECISION * PRECISION;
            assert(square >= 0) by (nonlinear_arith)
                requires
                    square == 1_000_000_000_000int * 1_000_000_000_000int,
            ;
            lemma_div_is_ordered_by_denominator(square, near as int, far as int);
        }
    }
}

/// A position opened over a range claims, for the amount deposited, exactly
/// what the range asked for that amount: wherever the requirement is
/// granted, the claim is granted and is the same two amounts. (A claim may
/// be granted where the requirement is refused, for amounts beyond 64
/// bits.)
pub proof fn lemma_claim_is_requirement(pool: Pool, position: Position, amount: u64)
    ensures
        required_token_amounts(pool, position.lower_bin_id, position.upper_bin_id, amount) matches Ok((in_a, in_b)) ==> claimable_amounts(pool, position, amount as u128)
            == Ok::<(u128, u128), MyError>((in_a as u128, in_b as u128)),
        claimable_amounts(pool, position, amount as u128) matches Ok((out_a, out_b)) ==> required_token_amounts(
            pool,
            position.lower_bin_id,
            position.upper_bin_id,
            amount,
        ) == (if out_a <= u64::MAX && out_b <= u64::MAX {
            Ok::<(u64, u64), MyError>((out_a as u64, out_b as u64))
        } else {
            Err::<(u64, u64), MyError>(MyError::MathOverflow)
        }),
        claimable_amounts(pool, position, amount as u128) matches Err(e) ==> required_token_amounts(pool, position.lower_bin_id, position.upper_bin_id, amount)
            == Err::<(u64, u64), MyError>(e),
{
}

/// The liquidity that a list of accounts holds.
pub open spec fn total_liquidity(accounts: Seq<BinAccount>) -> int
    decreases accounts.len(),
{
    if accounts.len() == 0 {
        0
    } else {
        total_liquidity(accounts.drop_last()) + accounts.last().bin.liquidity
    }
}

proof fn lemma_total_after_credit(before: Seq<BinAccount>, after: Seq<BinAccount>, per_bin: u128)
    requires
        before.len() == after.len(),
        forall|i: int| 0 <= i < before.len() ==> after[i].bin.liquidity == before[i].bin.liquidity + per_bin,
    ensures
        total_liquidity(after) == total_liquidity(before) + per_bin * before.len(),
    decreases before.len(),
{
    if before.len() > 0 {
        lemma_total_after_credit(before.drop_last(), after.drop_last(), per_bin);
        assert(per_bin * before.len() == per_bin * (before.len() - 1) + per_bin) by (nonlinear_arith);
    }
}

/// A deposit raises the liquidity of the bins, taken together, by the
/// amount per bin times the number of bins, and the position's liquidity by
/// the same.
pub proof fn lemma_deposit_adds_up(
    pool: Pool,
    pool_key: Seq<u8>,
    position: Position,
    accounts: Seq<BinAccount>,
    program_id: Seq<u8>,
    start_bin_id: i32,
    liquidity_per_bin: u128,
)
    ensures
        deposit(pool, pool_key, position, accounts, program_id, start_bin_id, liquidity_per_bin) matches Ok(done) ==> {
            &&& total_liquidity(done.accounts) == total_liquidity(accounts) + liquidity_per_bin * accounts.len()
            &&& done.position.liquidity == position.liquidity + liquidity_per_bin * accounts.len()
        },
{
    if let Ok(done) = deposit(pool, pool_key, position, accounts, program_id, start_bin_id, liquidity_per_bin) {
        lemma_credited_each(accounts, pool_key, program_id, pool.bin_step, 0, start_bin_id, liquidity_per_bin);
        lemma_total_after_credit(accounts, done.accounts, liquidity_per_bin);
    }
}

/// A position that holds liquidity cannot be closed: its owner is told
/// that it is not empty. Only an empty position closes.
pub proof fn lemma_close_needs_empty(position: Position, owner: Seq<u8>)
    ensures
        position.liquidity > 0 ==> may_close(position, owner) is Err,
        position.liquidity > 0 && position.owner@ == owner ==> may_close(position, owner) == Err::<(), MyError>(MyError::PositionNotEmpty),
        may_close(position, owner) is Ok ==> position.liquidity == 0,
{
}

/// The surplus of a rebalance is what the old position is worth less what
/// the new range asks for all the liquidity moved, exactly, and it is what
/// is paid out and what leaves the reserves; where the caller asks for
/// more, the rebalance is refused for slippage.
pub proof fn lemma_rebalance_surplus(
    pool: Pool,
    pool_key: Address,
    owner: Address,
    old_position: Position,
    old_position_key: Address,
    new_position: Position,
    new_position_key: Address,
    accounts: Seq<BinAccount>,
    program_id: Seq<u8>,
    min_surplus_a_out: u64,
    min_surplus_b_out: u64,
)
    ensures
        rebalance(pool, pool_key, owner, old_position, old_position_key, new_position, new_position_key, accounts, program_id, min_surplus_a_out, min_surplus_b_out) matches Ok(done) ==> {
            &&& claim(pool, pool_key@, old_position, accounts, program_id) matches Ok((_, claimable_a, claimable_b))
            &&& range_amounts(pool.active_bin_id, pool.bin_step, new_position.lower_bin_id, new_position.upper_bin_id, old_position.liquidity) matches Ok(
                (required_a, required_b),
            )
            &&& done.outcome.surplus_a == claimable_a - required_a
            &&& done.outcome.surplus_b == claimable_b - required_b
            &&& done.outcome.surplus_a >= min_surplus_a_out
            &&& done.outcome.surplus_b >= min_surplus_b_out
            &&& amount_of(done.outcome.token_a_out) == done.outcome.surplus_a
            &&& amount_of(done.outcome.token_b_out) == done.outcome.surplus_b
            &&& done.pool.reserves_a == pool.reserves_a - done.outcome.surplus_a
            &&& done.pool.reserves_b == pool.reserves_b - done.outcome.surplus_b
        },
        ({
            &&& standing(pool_key@, owner@, old_position, new_position) is Ok
            &&& old_position.liquidity > 0
            &&& pool.bin_step > 0
            &&& accounts.len() == bin_count(old_position.lower_bin_id, old_position.upper_bin_id, pool.bin_step) + bin_count(
                new_position.lower_bin_id,
                new_position.upper_bin_id,
                pool.bin_step,
            )
            &&& claim(pool, pool_key@, old_position, accounts, program_id) matches Ok((_, claimable_a, claimable_b))
            &&& range_amounts(pool.active_bin_id, pool.bin_step, new_position.lower_bin_id, new_position.upper_bin_id, old_position.liquidity) matches Ok(
                (required_a, required_b),
            )
            &&& claimable_a >= required_a
            &&& claimable_b >= required_b
            &&& (claimable_a - required_a < min_surplus_a_out || claimable_b - required_b < min_surplus_b_out)
        }) ==> rebalance(pool, pool_key, owner, old_position, old_position_key, new_position, new_position_key, accounts, program_id, min_surplus_a_out, min_surplus_b_out)
            == Err::<Rebalance, MyError>(MyError::SlippageExceeded),
{
}

/// Whether `chunk` is a power of two.
pub open spec fn power_of_two(chunk: u128) -> bool
    decreases chunk,
{
    chunk == 1 || (chunk > 1 && chunk % 2 == 0 && power_of_two(chunk / 2))
}

proof fn lemma_digits_within_itself(a: u128)
    ensures
        digits_within(a, a),
    decreases a,
{
    if a > 0 {
        lemma_digits_within_itself(a / 2);
    }
}

/// Halving an id halves its part above a chunk and its part below it.
proof fn lemma_halved_parts(a: u128, chunk: u128)
    requires
        chunk > 1,
        chunk % 2 == 0,
    ensures
        (a / 2) / (chunk / 2) == a / chunk,
        (a % chunk) / 2 == (a / 2) % (chunk / 2),
        (a % chunk) % 2 == a % 2,
        a % chunk < chunk,
{
    let half = (chunk / 2) as int;
    assert(2 * half == chunk);
    lemma_div_denominator(a as int, 2, half);
    lemma_mod_breakdown(a as int, 2, half);
    assert(a as int % (2 * half) == 2 * ((a as int / 2) % half) + a as int % 2);
    assert(0 <= (a as int / 2) % half < half);
}

/// Two ladders on one base whose exponents share every digit above a chunk:
/// the order of their ends is the order of the ladders on the digits below
/// the chunk alone.
proof fn lemma_ladder_common_digits(start_a: u128, start_b: u128, base_fp: u128, a: u128, b: u128, chunk: u128)
    requires
        power_of_two(chunk),
        a / chunk == b / chunk,
        a / chunk >= 1,
        base_fp > BASIS_POINT_MAX,
        start_a >= BASIS_POINT_MAX,
        start_b >= BASIS_POINT_MAX,
    ensures
        (power_ladder(start_a, base_fp, a), power_ladder(start_b, base_fp, b)) matches (Ok(end_a), Ok(end_b)) ==> {
            &&& power_ladder(start_a, base_fp, a % chunk) matches Ok(low_a)
            &&& power_ladder(start_b, base_fp, b % chunk) matches Ok(low_b)
            &&& low_a < low_b ==> end_a < end_b
            &&& low_a <= low_b ==> end_a <= end_b
        },
    decreases chunk,
{
    if let (Ok(end_a), Ok(end_b)) = (power_ladder(start_a, base_fp, a), power_ladder(start_b, base_fp, b)) {
        if chunk == 1 {
            assert(a == b);
            assert(a % 1 == 0 && b % 1 == 0);
            lemma_digits_within_itself(a);
            if start_a <= start_b {
                lemma_ladder_order(start_a, start_b, base_fp, a, a);
            }
        } else {
            lemma_halved_parts(a, chunk);
            lemma_halved_parts(b, chunk);
            assert(a >= 1 && b >= 1) by {
                if a == 0 {
                    assert(0u128 / chunk == 0);
                }
                if b == 0 {
                    assert(0u128 / chunk == 0);
                }
            }
            lemma_scaled_product(start_a, base_fp);
            lemma_scaled_product(start_b, base_fp);
            lemma_scaled_product(base_fp, base_fp);
            let squared = mul_div(base_fp, base_fp, BASIS_POINT_MAX)->Ok_0;
            let next_a = if a % 2 == 1 { mul_div(start_a, base_fp, BASIS_POINT_MAX)->Ok_0 } else { start_a };
            let next_b = if b % 2 == 1 { mul_div(start_b, base_fp, BASIS_POINT_MAX)->Ok_0 } else { start_b };
            lemma_ladder_common_digits(next_a, next_b, squared, a / 2, b / 2, chunk / 2);
            let low_a = (a % chunk) as u128;
            let low_b = (b % chunk) as u128;
            assert(power_ladder(start_a, base_fp, low_a) == power_ladder(next_a, squared, ((a / 2) % (chunk / 2)) as u128)) by {
                if low_a == 0 {
                    assert(a % 2 == 0);
                }
            }
            assert(power_ladder(start_b, base_fp, low_b) == power_ladder(next_b, squared, ((b / 2) % (chunk / 2)) as u128)) by {
                if low_b == 0 {
                    assert(b % 2 == 0);
                }
            }
        }
    }
}

/// Above bin 0, the order of two prices is decided below the binary digits
/// that the two bins share: where both ids have the same digits from
/// `chunk` up, their prices stand as the prices of the two ids without
/// those digits stand.
pub proof fn lemma_price_order_below_common_digits(lower: i32, upper: i32, bin_step: u16, chunk: u128)
    requires
        0 <= lower < upper,
        power_of_two(chunk),
        lower as u128 / chunk == upper as u128 / chunk,
        lower as u128 / chunk >= 1,
    ensures
        (price_at_bin(lower, bin_step), price_at_bin(upper, bin_step)) matches (Ok(below), Ok(above)) ==> {
            &&& price_at_bin((lower as u128 % chunk) as i32, bin_step) matches Ok(low_below)
            &&& price_at_bin((upper as u128 % chunk) as i32, bin_step) matches Ok(low_above)
            &&& low_below < low_above ==> below < above
            &&& low_below <= low_above ==> below <= above
        },
{
    if bin_step > 0 {
        lemma_ladder_common_digits(PRECISION, PRECISION, (BASIS_POINT_MAX + bin_step) as u128, lower as u128, upper as u128, chunk);
        assert(lower as u128 % chunk <= lower as u128 && upper as u128 % chunk <= upper as u128) by (nonlinear_arith)
            requires
                chunk > 0,
        ;
    }
}

/// A walk keeps every account in its place and under its address, lowers no
/// bin's fee growth, pays out no less than it had, and comes to rest on the
/// side it walks to: at a lower bin when token A is sold, at a higher one
/// when token B is sold, and never where it began if there was anything to
/// sell.
pub proof fn lemma_walk_moves_on(
    sell_a: bool,
    pool_key: Seq<u8>,
    program_id: Seq<u8>,
    bin_step: u16,
    fee_rate: u16,
    accounts: Seq<BinAccount>,
    at: int,
    state: WalkState,
)
    requires
        0 <= at,
    ensures
        walk_from(sell_a, pool_key, program_id, bin_step, fee_rate, accounts, at, state) matches Ok((after, paid_out, rest_at)) ==> {
            &&& after.len() == accounts.len()
            &&& forall|i: int| 0 <= i < accounts.len() ==> (#[trigger] after[i]).key == accounts[i].key
            &&& forall|i: int| 0 <= i < at && i < accounts.len() ==> after[i] == accounts[i]
            &&& forall|i: int| 0 <= i < accounts.len() ==> {
                &&& (#[trigger] after[i]).bin.fee_growth_per_unit_a >= accounts[i].bin.fee_growth_per_unit_a
                &&& after[i].bin.fee_growth_per_unit_b >= accounts[i].bin.fee_growth_per_unit_b
            }
            &&& paid_out >= state.amount_out
            &&& sell_a ==> rest_at <= state.bin_id
            &&& !sell_a ==> rest_at >= state.bin_id
            &&& state.remaining > 0 ==> rest_at != state.bin_id && bin_step > 0
        },
    decreases accounts.len() - at,
{
    if state.remaining > 0 && at < accounts.len() {
        let expected = bin_address(pool_key, state.bin_id, program_id);
        if let Ok((bin, next)) = visit(sell_a, accounts[at], expected, bin_step, fee_rate, state) {
            let moved = accounts.update(at, BinAccount { key: accounts[at].key, bin });
            lemma_walk_moves_on(sell_a, pool_key, program_id, bin_step, fee_rate, moved, at + 1, next);
        }
    }
}

/// Replacing one account changes the liquidity held by that account's
/// difference.
proof fn lemma_total_after_update(accounts: Seq<BinAccount>, at: int, account: BinAccount)
    requires
        0 <= at < accounts.len(),
    ensures
        total_liquidity(accounts.update(at, account)) == total_liquidity(accounts) - accounts[at].bin.liquidity + account.bin.liquidity,
    decreases accounts.len(),
{
    let updated = accounts.update(at, account);
    if at == accounts.len() - 1 {
        assert(updated.drop_last() =~= accounts.drop_last());
    } else {
        assert(updated.drop_last() =~= accounts.drop_last().update(at, account));
        lemma_total_after_update(accounts.drop_last(), at, account);
    }
}

/// What one visit does to the bin's liquidity: a sale of token A adds to it
/// no more than the input that the visit used up; a sale of token B takes
/// from it exactly what the visit pays out.
pub proof fn lemma_visit_conserves(sell_a: bool, account: BinAccount, expected: Option<Seq<u8>>, bin_step: u16, fee_rate: u16, state: WalkState)
    ensures
        visit(sell_a, account, expected, bin_step, fee_rate, state) matches Ok((bin, next)) ==> {
            &&& next.remaining <= state.remaining
            &&& next.amount_out >= state.amount_out
            &&& sell_a ==> 0 <= bin.liquidity - account.bin.liquidity <= state.remaining - next.remaining
            &&& !sell_a ==> account.bin.liquidity - bin.liquidity == next.amount_out - state.amount_out
        },
{
    if let Ok((bin, next)) = visit(sell_a, account, expected, bin_step, fee_rate, state) {
        let price = price_at_bin(state.bin_id, bin_step);
        if sell_a {
            let capacity = mul_div(account.bin.liquidity, price->Ok_0, PRECISION)->Ok_0;
            if capacity > 0 {
                lemma_terms_in_order(capacity, price->Ok_0, PRECISION, account.bin.liquidity, fee_rate, state.remaining);
            }
        } else if account.bin.liquidity > 0 {
            lemma_terms_in_order(account.bin.liquidity, PRECISION, price->Ok_0, account.bin.liquidity, fee_rate, state.remaining);
        }
    }
}

proof fn lemma_walk_conserves(
    sell_a: bool,
    pool_key: Seq<u8>,
    program_id: Seq<u8>,
    bin_step: u16,
    fee_rate: u16,
    accounts: Seq<BinAccount>,
    at: int,
    state: WalkState,
)
    requires
        0 <= at,
    ensures
        walk_from(sell_a, pool_key, program_id, bin_step, fee_rate, accounts, at, state) matches Ok((after, paid_out, _)) ==> {
            &&& sell_a ==> 0 <= total_liquidity(after) - total_liquidity(accounts) <= state.remaining
            &&& !sell_a ==> total_liquidity(accounts) - total_liquidity(after) == paid_out - state.amount_out
        },
    decreases accounts.len() - at,
{
    if state.remaining > 0 && at < accounts.len() {
        let expected = bin_address(pool_key, state.bin_id, program_id);
        if let Ok((bin, next)) = visit(sell_a, accounts[at], expected, bin_step, fee_rate, state) {
            let account = BinAccount { key: accounts[at].key, bin };
            lemma_visit_conserves(sell_a, accounts[at], expected, bin_step, fee_rate, state);
            lemma_total_after_update(accounts, at, account);
            lemma_walk_conserves(sell_a, pool_key, program_id, bin_step, fee_rate, accounts.update(at, account), at + 1, next);
        }
    }
}

/// A sale neither makes nor loses liquidity. When token A is sold, the bins
/// take in no more than was sold; when token B is sold, the bins give up
/// exactly what is paid out.
pub proof fn lemma_sale_conserves(sell_a: bool, pool: Pool, pool_key: Seq<u8>, program_id: Seq<u8>, accounts: Seq<BinAccount>, amount_in: u64)
    ensures
        walk(sell_a, pool, pool_key, program_id, accounts, amount_in) matches Ok((after, paid_out, _)) ==> {
            &&& sell_a ==> 0 <= total_liquidity(after) - total_liquidity(accounts) <= amount_in
            &&& !sell_a ==> total_liquidity(accounts) - total_liquidity(after) == paid_out
        },
{
    lemma_walk_conserves(
        sell_a,
        pool_key,
        program_id,
        pool.bin_step,
        pool.fee_rate,
        accounts,
        0,
        WalkState { remaining: amount_in as u128, amount_out: 0, bin_id: pool.active_bin_id },
    );
}

/// Converting an amount at `num / den` and the result back at `den / num`,
/// both rounded down, gives no more than the amount.
proof fn lemma_there_and_back(amount: int, num: int, den: int)
    requires
        amount >= 0,
        num > 0,
        den > 0,
    ensures
        0 <= amount * num / den,
        (amount * num / den) * den / num <= amount,
{
    let there = amount * num / den;
    assert(amount * num >= 0) by (nonlinear_arith)
        requires
            amount >= 0,
            num > 0,
    ;
    lemma_fundamental_div_mod(amount * num, den);
    assert(there >= 0 && there * den <= amount * num) by (nonlinear_arith)
        requires
            amount * num == den * there + (amount * num) % den,
            0 <= (amount * num) % den < den,
            amount * num >= 0,
            den > 0,
    ;
    assert(there * den / num <= amount) by (nonlinear_arith)
        requires
            there * den <= amount * num,
            num > 0,
            amount >= 0,
    ;
}

/// At one rate, a smaller amount converts to no more.
proof fn lemma_conversion_order(less: int, more: int, num: int, den: int)
    requires
        0 <= less <= more,
        num > 0,
        den > 0,
    ensures
        less * num / den <= more * num / den,
{
    assert(less * num <= more * num) by (nonlinear_arith)
        requires
            less <= more,
            num > 0,
    ;
    assert(less * num / den <= more * num / den) by (nonlinear_arith)
        requires
            less * num <= more * num,
            den > 0,
    ;
}

/// Within one bin there is no way round that pays: token A sold to a bin
/// and any part of the token B received sold back to the same bin returns
/// no more token A than was sold less the fee on it.
pub proof fn lemma_no_gain_within_a_bin(bin: Bin, bin_id: i32, bin_step: u16, fee_rate: u16, amount: u128, resold: u128)
    ensures
        fill_of_a(bin, bin_id, bin_step, fee_rate, amount) matches Ok(sold) ==> (resold <= sold.amount_out ==> (fill_of_b(
            sold.bin,
            bin_id,
            bin_step,
            fee_rate,
            resold,
        ) matches Ok(back) ==> back.amount_out <= amount && (fee_on(amount, fee_rate) > 0 ==> back.amount_out < amount))),
{
    lemma_fee_bounds(amount, fee_rate);
    lemma_fee_bounds(resold, fee_rate);
    if let Ok(sold) = fill_of_a(bin, bin_id, bin_step, fee_rate, amount) {
        if resold <= sold.amount_out {
            if let Ok(back) = fill_of_b(sold.bin, bin_id, bin_step, fee_rate, resold) {
                let price = price_at_bin(bin_id, bin_step)->Ok_0;
                let capacity = mul_div(bin.liquidity, price, PRECISION)->Ok_0;
                if capacity == 0 || sold.bin.liquidity == 0 {
                    // nothing was sold, or nothing is left to buy back
                    if capacity == 0 && sold.bin.liquidity > 0 {
                        assert(resold == 0);
                        assert(terms_fit(sold.bin.liquidity, PRECISION, price, sold.bin.liquidity, fee_rate, resold));
                        assert(0 * fee_rate / 10000 == 0int);
                        assert(fee_on(resold, fee_rate) == 0);
                        assert(((resold - 0) * PRECISION) / (price as int) == 0) by (nonlinear_arith)
                            requires
                                resold == 0,
                                price > 0,
                        ;
                        assert(back.amount_out == 0);
                    }
                    assert(back.amount_out == 0);
                } else {
                    assert(terms_fit(capacity, price, PRECISION, bin.liquidity, fee_rate, amount));
                    assert(terms_fit(sold.bin.liquidity, PRECISION, price, sold.bin.liquidity, fee_rate, resold));
                    let kept = amount - fee_on(amount, fee_rate);
                    let offered = kept * price / (PRECISION as int);
                    lemma_there_and_back(kept, price as int, PRECISION as int);
                    assert(sold.amount_out <= offered);
                    let resold_kept = resold - fee_on(resold, fee_rate);
                    lemma_conversion_order(resold_kept, offered, PRECISION as int, price as int);
                    assert(back.amount_out <= resold_kept * PRECISION / (price as int));
                    assert(back.amount_out <= kept);
                }
            }
        }
    }
}

/// A walk that comes to rest one bin on from where it stands was served by
/// the account it stands at, at once.
proof fn lemma_walk_served_at_once(
    sell_a: bool,
    pool_key: Seq<u8>,
    program_id: Seq<u8>,
    bin_step: u16,
    fee_rate: u16,
    accounts: Seq<BinAccount>,
    at: int,
    state: WalkState,
)
    requires
        0 <= at,
        state.remaining > 0,
    ensures
        walk_from(sell_a, pool_key, program_id, bin_step, fee_rate, accounts, at, state) matches Ok((after, paid_out, rest_at)) ==> (rest_at == next_bin(
            sell_a,
            state.bin_id,
            bin_step,
        ) ==> {
            &&& at < accounts.len()
            &&& visit(sell_a, accounts[at], bin_address(pool_key, state.bin_id, program_id), bin_step, fee_rate, state) matches Ok((bin, next))
            &&& next.remaining == 0
            &&& next.amount_out == paid_out
            &&& after == accounts.update(at, BinAccount { key: accounts[at].key, bin })
        }),
{
    if at < accounts.len() {
        let expected = bin_address(pool_key, state.bin_id, program_id);
        if let Ok((bin, next)) = visit(sell_a, accounts[at], expected, bin_step, fee_rate, state) {
            let moved = accounts.update(at, BinAccount { key: accounts[at].key, bin });
            lemma_walk_moves_on(sell_a, pool_key, program_id, bin_step, fee_rate, moved, at + 1, next);
        }
    }
}

/// Token A sold into the active bin alone, and what was received sold
/// straight back through the empty bin below into that same bin, returns no
/// more than was sold, and less as soon as the fee on the way out is not
/// zero. The sale is served by the active bin alone where it comes to rest
/// one step below it, and the way back ends in that bin where it comes to
/// rest one step above it; the accounts beyond are not looked at. (A way
/// back that finds liquidity in the bin below, where token A is cheaper,
/// can return more than was sold.)
pub proof fn lemma_round_trip_through_one_bin(pool: Pool, pool_key: Seq<u8>, program_id: Seq<u8>, down: Seq<BinAccount>, up: Seq<BinAccount>, amount_in: u64)
    requires
        up.len() >= 2,
        up[0].bin.liquidity == 0,
    ensures
        sale(true, pool, pool_key, program_id, down, amount_in) matches Ok((after, received, rest_at)) ==> (rest_at == pool.active_bin_id - pool.bin_step
            && after.len() >= 1 && up[1].bin == after[0].bin ==> (sale(false, Pool { active_bin_id: rest_at, ..pool }, pool_key, program_id, up, received) matches Ok(
            (_, returned, back_at),
        ) ==> (back_at == pool.active_bin_id + pool.bin_step ==> returned <= amount_in && (fee_on(amount_in as u128, pool.fee_rate) > 0 ==> returned
            < amount_in)))),
{
    if let Ok((after, received, rest_at)) = sale(true, pool, pool_key, program_id, down, amount_in) {
        let back_pool = Pool { active_bin_id: rest_at, ..pool };
        if let Ok((_, returned, back_at)) = sale(false, back_pool, pool_key, program_id, up, received) {
            if rest_at == pool.active_bin_id - pool.bin_step && after.len() >= 1 && up[1].bin == after[0].bin && back_at == pool.active_bin_id + pool.bin_step {
                let start = WalkState { remaining: amount_in as u128, amount_out: 0, bin_id: pool.active_bin_id };
                let back = WalkState { remaining: received as u128, amount_out: 0, bin_id: rest_at };
                if amount_in == 0 {
                    assert(received == 0 && returned == 0);
                } else if received == 0 {
                    assert(returned == 0);
                } else {
                    lemma_walk_moves_on(true, pool_key, program_id, pool.bin_step, pool.fee_rate, down, 0, start);
                    lemma_walk_served_at_once(true, pool_key, program_id, pool.bin_step, pool.fee_rate, down, 0, start);
                    // the way back passes over the empty bin below
                    let passed = visit(false, up[0], bin_address(pool_key, rest_at, program_id), pool.bin_step, pool.fee_rate, back);
                    assert(passed matches Ok((bin, next)) && bin == up[0].bin && next == (WalkState { remaining: received as u128, amount_out: 0, bin_id: pool.active_bin_id }));
                    let up_one = up.update(0, BinAccount { key: up[0].key, bin: up[0].bin });
                    assert(up_one[1] == up[1]);
                    lemma_walk_served_at_once(false, pool_key, program_id, pool.bin_step, pool.fee_rate, up_one, 1, passed->Ok_0.1);
                    lemma_no_gain_within_a_bin(down[0].bin, pool.active_bin_id, pool.bin_step, pool.fee_rate, amount_in as u128, received as u128);
                }
            }
        }
    }
}

/// What one bin gives for token B is worth, at any price not above its
/// own, no more than the input it used up, but for the rounding of one
/// conversion: less than one unit of token B.
proof fn lemma_fill_of_b_is_paid_for(bin: Bin, bin_id: i32, bin_step: u16, fee_rate: u16, remaining: u128, floor_price: u128)
    requires
        price_at_bin(bin_id, bin_step) matches Ok(price) ==> price >= floor_price,
    ensures
        fill_of_b(bin, bin_id, bin_step, fee_rate, remaining) matches Ok(fill) ==> {
            &&& fill.remaining <= remaining
            &&& fill.amount_out * floor_price <= (remaining - fill.remaining) * PRECISION + (PRECISION - 1)
        },
{
    if let Ok(fill) = fill_of_b(bin, bin_id, bin_step, fee_rate, remaining) {
        if bin.liquidity > 0 {
            let price = price_at_bin(bin_id, bin_step)->Ok_0;
            lemma_terms_in_order(bin.liquidity, PRECISION, price, bin.liquidity, fee_rate, remaining);
            let out = fill.amount_out as int;
            let consumed = out * price / (PRECISION as int);
            assert(out * price >= 0) by (nonlinear_arith)
                requires
                    out >= 0,
                    price >= 0,
            ;
            lemma_fundamental_div_mod(out * price, PRECISION as int);
            assert(out * price <= consumed * PRECISION + (PRECISION - 1)) by (nonlinear_arith)
                requires
                    out * price == PRECISION * consumed + (out * price) % (PRECISION as int),
                    0 <= (out * price) % (PRECISION as int) < PRECISION,
            ;
            assert(out * floor_price <= out * price) by (nonlinear_arith)
                requires
                    out >= 0,
                    floor_price <= price,
            ;
            let used = remaining - fill.remaining;
            assert(consumed * PRECISION <= used * PRECISION) by (nonlinear_arith)
                requires
                    consumed <= used,
            ;
        } else {
            assert(0 * (floor_price as int) == 0);
        }
    }
}

/// What a sale of token B pays out is worth, at any price that no bin on
/// the way undercuts, no more than what was sold, but for less than one
/// unit of token B for each account on the way.
proof fn lemma_way_up_is_paid_for(pool_key: Seq<u8>, program_id: Seq<u8>, bin_step: u16, fee_rate: u16, accounts: Seq<BinAccount>, at: int, state: WalkState, floor_price: u128)
    requires
        0 <= at <= accounts.len(),
        forall|bin_id: i32| bin_id >= state.bin_id ==> (#[trigger] price_at_bin(bin_id, bin_step) matches Ok(price) ==> price >= floor_price),
    ensures
        walk_from(false, pool_key, program_id, bin_step, fee_rate, accounts, at, state) matches Ok((_, paid_out, _)) ==> (paid_out - state.amount_out) * floor_price
            <= state.remaining * PRECISION + (accounts.len() - at) * (PRECISION - 1),
    decreases accounts.len() - at,
{
    if let Ok((_, paid_out, _)) = walk_from(false, pool_key, program_id, bin_step, fee_rate, accounts, at, state) {
        if state.remaining == 0 {
            assert(0 * (floor_price as int) == 0);
            assert((accounts.len() - at) * (PRECISION - 1) >= 0) by (nonlinear_arith)
                requires
                    accounts.len() - at >= 0,
            ;
        } else {
            let expected = bin_address(pool_key, state.bin_id, program_id);
            let (bin, next) = visit(false, accounts[at], expected, bin_step, fee_rate, state)->Ok_0;
            let moved = accounts.update(at, BinAccount { key: accounts[at].key, bin });
            lemma_fill_of_b_is_paid_for(accounts[at].bin, state.bin_id, bin_step, fee_rate, state.remaining, floor_price);
            lemma_way_up_is_paid_for(pool_key, program_id, bin_step, fee_rate, moved, at + 1, next, floor_price);
            let here = next.amount_out - state.amount_out;
            let beyond = paid_out - next.amount_out;
            let left = accounts.len() - at - 1;
            assert((here + beyond) * floor_price == here * floor_price + beyond * floor_price) by (nonlinear_arith);
            assert((state.remaining - next.remaining) * PRECISION + next.remaining * PRECISION == state.remaining * PRECISION) by (nonlinear_arith);
            assert((left + 1) * (PRECISION - 1) == left * (PRECISION - 1) + (PRECISION - 1)) by (nonlinear_arith);
        }
    }
}

/// Token A sold into the active bin alone, and what was received sold
/// straight back along any way that finds the bin below empty: where no bin
/// at or above the active bin undercuts its price, what comes back is worth
/// no more than what was sold less the fee, but for less than one unit of
/// token B for each account on the way up. It is less than was sold as soon
/// as the fee outweighs that rounding.
pub proof fn lemma_round_trip_above_is_bounded(pool: Pool, pool_key: Seq<u8>, program_id: Seq<u8>, down: Seq<BinAccount>, up: Seq<BinAccount>, amount_in: u64)
    requires
        up.len() >= 1,
        up[0].bin.liquidity == 0,
        forall|bin_id: i32|
            bin_id >= pool.active_bin_id ==> ((price_at_bin(pool.active_bin_id, pool.bin_step), #[trigger] price_at_bin(bin_id, pool.bin_step)) matches (
                Ok(price),
                Ok(above),
            ) ==> above >= price),
    ensures
        sale(true, pool, pool_key, program_id, down, amount_in) matches Ok((_, received, rest_at)) ==> (rest_at == pool.active_bin_id - pool.bin_step ==> (sale(
            false,
            Pool { active_bin_id: rest_at, ..pool },
            pool_key,
            program_id,
            up,
            received,
        ) matches Ok((_, returned, _)) ==> {
            let price = price_at_bin(pool.active_bin_id, pool.bin_step)->Ok_0;
            let kept = amount_in - fee_on(amount_in as u128, pool.fee_rate);
            let rounding = (up.len() - 1) * (PRECISION - 1);
            &&& amount_in > 0 ==> price_at_bin(pool.active_bin_id, pool.bin_step) is Ok
            &&& returned * price <= kept * price + rounding
            &&& fee_on(amount_in as u128, pool.fee_rate) * price > rounding ==> returned < amount_in
        })),
{
    if let Ok((_, received, rest_at)) = sale(true, pool, pool_key, program_id, down, amount_in) {
        let back_pool = Pool { active_bin_id: rest_at, ..pool };
        if let Ok((_, returned, _)) = sale(false, back_pool, pool_key, program_id, up, received) {
            if rest_at == pool.active_bin_id - pool.bin_step {
                let start = WalkState { remaining: amount_in as u128, amount_out: 0, bin_id: pool.active_bin_id };
                let back = WalkState { remaining: received as u128, amount_out: 0, bin_id: rest_at };
                let price = price_at_bin(pool.active_bin_id, pool.bin_step)->Ok_0;
                let fee = fee_on(amount_in as u128, pool.fee_rate);
                let kept = amount_in - fee;
                let rounding = (up.len() - 1) * (PRECISION - 1);
                lemma_fee_bounds(amount_in as u128, pool.fee_rate);
                assert(rounding >= 0) by (nonlinear_arith)
                    requires
                        rounding == (up.len() - 1) * (PRECISION - 1),
                        up.len() >= 1,
                ;
                if amount_in == 0 {
                    assert(received == 0 && returned == 0);
                    assert(0 * (price as int) == 0);
                    assert(fee == 0);
                } else {
                    lemma_walk_moves_on(true, pool_key, program_id, pool.bin_step, pool.fee_rate, down, 0, start);
                    lemma_walk_served_at_once(true, pool_key, program_id, pool.bin_step, pool.fee_rate, down, 0, start);
                    // what was received is worth no more than what was kept of the input
                    let bin = down[0].bin;
                    let capacity = mul_div(bin.liquidity, price, PRECISION)->Ok_0;
                    assert(received * PRECISION <= kept * price) by {
                        if capacity > 0 {
                            lemma_terms_in_order(capacity, price, PRECISION, bin.liquidity, pool.fee_rate, amount_in as u128);
                            assert(kept * price >= 0) by (nonlinear_arith)
                                requires
                                    kept >= 0,
                                    price >= 0,
                            ;
                            lemma_floor_times_divisor(kept * price, PRECISION as int);
                            let offered = kept * price / (PRECISION as int);
                            assert(received * PRECISION <= offered * PRECISION) by (nonlinear_arith)
                                requires
                                    received <= offered,
                            ;
                        }
                    }
                    if received == 0 {
                        assert(returned == 0);
                        assert(0 * (price as int) == 0);
                        assert(kept * price >= 0) by (nonlinear_arith)
                            requires
                                kept >= 0,
                                price >= 0,
                        ;
                    } else {
                        // the way back passes over the empty bin below, then walks up from the active bin
                        let passed = visit(false, up[0], bin_address(pool_key, rest_at, program_id), pool.bin_step, pool.fee_rate, back);
                        let from_active = WalkState { remaining: received as u128, amount_out: 0, bin_id: pool.active_bin_id };
                        assert(passed matches Ok((left, next)) && left == up[0].bin && next == from_active);
                        let up_one = up.update(0, BinAccount { key: up[0].key, bin: up[0].bin });
                        lemma_way_up_is_paid_for(pool_key, program_id, pool.bin_step, pool.fee_rate, up_one, 1, from_active, price);
                        assert(returned * price <= received * PRECISION + rounding);
                    }
                    if fee * price > rounding {
                        assert(returned < amount_in) by (nonlinear_arith)
                            requires
                                returned * price <= kept * price + rounding,
                                fee * price > rounding,
                                kept + fee == amount_in,
                                price >= 0,
                        ;
                    }
                }
            }
        }
    }
}

/// No operation touches what makes a pool or a position well formed: the
/// bin step of the pool and the range of the position stay as they are.
pub proof fn lemma_records_keep_their_shape(
    pool: Pool,
    pool_key: Address,
    owner: Address,
    position: Position,
    position_key: Address,
    other: Position,
    other_key: Address,
    mint: Seq<u8>,
    source_vault: Seq<u8>,
    destination_vault: Seq<u8>,
    accounts: Seq<BinAccount>,
    program_id: Seq<u8>,
    bin_id: i32,
    liquidity: u128,
    amount: u64,
    floor_a: u64,
    floor_b: u64,
)
    ensures
        deposit(pool, pool_key@, position, accounts, program_id, bin_id, liquidity) matches Ok(done) ==> {
            &&& done.pool.well_formed() == pool.well_formed()
            &&& done.position.well_formed() == position.well_formed()
        },
        withdrawal(pool, pool_key@, position, owner@, accounts, program_id, liquidity, floor_a, floor_b) matches Ok(done) ==> {
            &&& done.pool.well_formed() == pool.well_formed()
            &&& done.position.well_formed() == position.well_formed()
        },
        trade(pool, pool_key@, mint, source_vault, destination_vault, accounts, program_id, amount, floor_a) matches Ok(done) ==> done.pool.well_formed()
            == pool.well_formed(),
        rebalance(pool, pool_key, owner, position, position_key, other, other_key, accounts, program_id, floor_a, floor_b) matches Ok(done) ==> {
            &&& done.pool.well_formed() == pool.well_formed()
            &&& done.old_position.well_formed() == position.well_formed()
            &&& done.new_position.well_formed() == other.well_formed()
        },
{
}

} // verus!
