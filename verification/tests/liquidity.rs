use dloom_flow::errors::MyError;
use dloom_flow::math::{
    calculate_accrued_fees, calculate_claimable_amounts, calculate_required_for_bin,
    calculate_required_token_amounts,
};
use dloom_flow::state::{Bin, Pool, Position};

fn pool(active_bin_id: i32, bin_step: u16) -> Pool {
    Pool {
        bump: 255,
        token_a_mint: [1; 32],
        token_b_mint: [2; 32],
        token_a_vault: [3; 32],
        token_b_vault: [4; 32],
        active_bin_id,
        bin_step,
        fee_rate: 30,
        reserves_a: 0,
        reserves_b: 0,
    }
}

fn position(lower_bin_id: i32, upper_bin_id: i32, liquidity: u128) -> Position {
    Position {
        pool: [7; 32],
        owner: [8; 32],
        lower_bin_id,
        upper_bin_id,
        liquidity,
        position_mint: [5; 32],
        fee_growth_snapshot_a: 0,
        fee_growth_snapshot_b: 0,
    }
}

#[test]
fn bins_below_the_active_bin_ask_for_token_b_only() {
    assert_eq!(calculate_required_for_bin(0, -20, 10, 1_000_000), Ok((0, 980_330)));
    assert_eq!(calculate_required_for_bin(0, -10, 10, 1_000_000), Ok((0, 990_083)));
}

#[test]
fn the_active_bin_asks_for_both_tokens() {
    assert_eq!(calculate_required_for_bin(0, 0, 10, 1_000_000), Ok((1_000_000, 1_000_000)));
    assert_eq!(calculate_required_for_bin(10, 10, 10, 1_000_000), Ok((1_000_000, 1_010_016)));
}

#[test]
fn bins_above_the_active_bin_ask_for_token_a_only() {
    assert_eq!(calculate_required_for_bin(0, 10, 10, 1_000_000), Ok((1_000_000, 0)));
    assert_eq!(calculate_required_for_bin(0, 20, 10, 1_000_000), Ok((1_000_000, 0)));
    // no price is taken above the active bin, so even a step of zero passes
    assert_eq!(calculate_required_for_bin(0, 20, 0, 77), Ok((77, 0)));
}

#[test]
fn a_bin_without_a_price_asks_for_nothing_it_can_name() {
    assert_eq!(calculate_required_for_bin(0, 0, 0, 1), Err(MyError::InvalidBinStep));
    assert_eq!(calculate_required_for_bin(5000, 2500, 200, 1), Err(MyError::MathOverflow));
    assert_eq!(calculate_required_for_bin(0, 0, 10, u128::MAX), Err(MyError::MathOverflow));
}

#[test]
fn a_range_asks_for_the_sum_of_its_bins() {
    let pool = pool(0, 10);
    assert_eq!(calculate_required_token_amounts(&pool, -20, 20, 5_000_000), Ok((3_000_000, 2_970_413)));
    let higher = self::pool(10, 10);
    assert_eq!(calculate_required_token_amounts(&higher, -20, 20, 5_000_000), Ok((2_000_000, 3_980_429)));
}

#[test]
fn a_range_drops_the_remainder_of_the_split() {
    let pool = pool(0, 10);
    assert_eq!(calculate_required_token_amounts(&pool, -20, 20, 5_000_007), Ok((3_000_003, 2_970_416)));
    assert_eq!(calculate_required_token_amounts(&pool, -20, 20, 4), Ok((0, 0)));
}

#[test]
fn an_empty_range_asks_for_nothing() {
    let pool = pool(0, 10);
    assert_eq!(calculate_required_token_amounts(&pool, 20, -20, 5_000_000), Ok((0, 0)));
    assert_eq!(calculate_claimable_amounts(&pool, &position(20, -20, 0), 5_000_000), Ok((0, 0)));
}

#[test]
fn a_range_of_one_bin_takes_everything() {
    let pool = pool(0, 10);
    assert_eq!(calculate_required_token_amounts(&pool, 0, 0, 1_000_000), Ok((1_000_000, 1_000_000)));
    assert_eq!(calculate_required_token_amounts(&pool, 0, 9, 1_000_000), Ok((1_000_000, 1_000_000)));
}

#[test]
fn a_range_with_a_bin_beyond_the_curve_is_refused() {
    let pool = pool(0, 200);
    assert_eq!(calculate_required_token_amounts(&pool, -2600, -2400, 10), Err(MyError::MathOverflow));
    assert_eq!(calculate_claimable_amounts(&pool, &position(-2600, -2400, 0), 10), Err(MyError::MathOverflow));
}

#[test]
fn a_fresh_position_claims_what_its_range_asked() {
    let pool = pool(0, 10);
    let position = position(-20, 20, 5_000_000);
    let claimable = calculate_claimable_amounts(&pool, &position, 5_000_000).unwrap();
    let required = calculate_required_token_amounts(&pool, -20, 20, 5_000_000).unwrap();
    assert_eq!(claimable, (3_000_000, 2_970_413));
    assert_eq!((claimable.0 as u64, claimable.1 as u64), required);
}

#[test]
fn claimable_amounts_are_not_cut_to_64_bits() {
    let pool = pool(-10, 10);
    let position = position(0, 10, 0);
    let liquidity: u128 = 1 << 70;
    assert_eq!(calculate_claimable_amounts(&pool, &position, liquidity), Ok((1 << 70, 0)));
}

#[test]
fn fees_are_the_growth_since_the_snapshot_times_the_liquidity() {
    let mut position = position(-20, 20, 1_000_000);
    position.fee_growth_snapshot_a = 1_000_000_000;
    position.fee_growth_snapshot_b = 500;
    let bin = Bin { liquidity: 9, fee_growth_per_unit_a: 4_000_000_000, fee_growth_per_unit_b: 2_000_000_500 };
    assert_eq!(calculate_accrued_fees(&position, &bin), (3000, 2000));
}

#[test]
fn fees_are_zero_when_the_snapshot_is_ahead() {
    let mut position = position(-20, 20, 100);
    position.fee_growth_snapshot_a = 10;
    position.fee_growth_snapshot_b = 10;
    let bin = Bin { liquidity: 0, fee_growth_per_unit_a: 5, fee_growth_per_unit_b: 10 };
    assert_eq!(calculate_accrued_fees(&position, &bin), (0, 0));
}

#[test]
fn fees_are_zero_when_the_product_overflows() {
    let position = position(-20, 20, 1 << 100);
    let bin = Bin { liquidity: 0, fee_growth_per_unit_a: 1 << 100, fee_growth_per_unit_b: 0 };
    assert_eq!(calculate_accrued_fees(&position, &bin), (0, 0));
}

#[test]
fn fees_beyond_64_bits_are_whole() {
    let position = position(-20, 20, 100_000_000);
    let bin = Bin {
        liquidity: 0,
        fee_growth_per_unit_a: 1_000_000_000_000_000_000_000_000_000_000,
        fee_growth_per_unit_b: 0,
    };
    assert_eq!(calculate_accrued_fees(&position, &bin), (100_000_000_000_000_000_000_000_000, 0));
}

#[test]
fn a_requirement_beyond_64_bits_is_refused() {
    let pool = pool(20, 10);
    assert_eq!(calculate_required_token_amounts(&pool, 0, 10, u64::MAX), Err(MyError::MathOverflow));
    // the claim for the same amount is whole
    assert_eq!(
        calculate_claimable_amounts(&pool, &position(0, 10, 0), u64::MAX as u128),
        Ok((0, 18_539_125_368_030_689_048))
    );
    // one unit less than the edge on the side of token A is granted
    let above = self::pool(-10, 10);
    assert_eq!(calculate_required_token_amounts(&above, 0, 0, u64::MAX), Ok((u64::MAX, 0)));
}

#[test]
fn a_range_on_a_curve_without_step_is_refused() {
    let pool = pool(0, 0);
    assert_eq!(calculate_required_token_amounts(&pool, -20, 20, 5), Err(MyError::InvalidBinStep));
    assert_eq!(calculate_required_token_amounts(&pool, 20, -20, 5), Err(MyError::InvalidBinStep));
    assert_eq!(calculate_claimable_amounts(&pool, &position(10, 20, 0), 5), Err(MyError::InvalidBinStep));
}
