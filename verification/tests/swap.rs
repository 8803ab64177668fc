use anchor_lang::prelude::Pubkey;
use dloom_flow::address::{expected_bin_address, holds_address, same_address};
use dloom_flow::errors::MyError;
use dloom_flow::math::{sell_a_in_bin, sell_b_in_bin, swap_a_to_b, swap_b_to_a, BinFill};
use dloom_flow::state::{Address, Bin, BinAccount, Pool};

const POOL_KEY: Address = [7; 32];
const PROGRAM_ID: Address = [9; 32];

fn bin_key(bin_id: i32) -> Address {
    let program_id = Pubkey::new_from_array(PROGRAM_ID);
    let (key, _) = Pubkey::find_program_address(&[b"bin", &POOL_KEY, &bin_id.to_le_bytes()], &program_id);
    key.to_bytes()
}

fn account(bin_id: i32, liquidity: u128) -> BinAccount {
    BinAccount { key: bin_key(bin_id), bin: Bin { liquidity, fee_growth_per_unit_a: 0, fee_growth_per_unit_b: 0 } }
}

fn pool(active_bin_id: i32, bin_step: u16, fee_rate: u16) -> Pool {
    Pool {
        bump: 255,
        token_a_mint: [1; 32],
        token_b_mint: [2; 32],
        token_a_vault: [3; 32],
        token_b_vault: [4; 32],
        active_bin_id,
        bin_step,
        fee_rate,
        reserves_a: 0,
        reserves_b: 0,
    }
}

fn bins(accounts: &Vec<BinAccount>) -> Vec<(u128, u128, u128)> {
    accounts.iter().map(|a| (a.bin.liquidity, a.bin.fee_growth_per_unit_a, a.bin.fee_growth_per_unit_b)).collect()
}

#[test]
fn bin_addresses_are_the_derived_program_addresses() {
    for bin_id in [0, 10, -10, 1, -1, 256, -65536, i32::MAX, i32::MIN] {
        let expected = expected_bin_address(&POOL_KEY, bin_id, &PROGRAM_ID).unwrap();
        assert_eq!(expected, bin_key(bin_id));
        assert!(holds_address(&bin_key(bin_id), &Some(expected)));
    }
    assert_ne!(expected_bin_address(&POOL_KEY, 0, &PROGRAM_ID).unwrap(), POOL_KEY);
    assert_ne!(expected_bin_address(&POOL_KEY, 0, &PROGRAM_ID).unwrap(), PROGRAM_ID);
}

#[test]
fn bin_addresses_differ_by_bin_pool_and_program() {
    let here = expected_bin_address(&POOL_KEY, 10, &PROGRAM_ID).unwrap();
    assert_ne!(here, expected_bin_address(&POOL_KEY, -10, &PROGRAM_ID).unwrap());
    assert_ne!(here, expected_bin_address(&[8; 32], 10, &PROGRAM_ID).unwrap());
    assert_ne!(here, expected_bin_address(&POOL_KEY, 10, &[8; 32]).unwrap());
    assert!(!holds_address(&bin_key(20), &Some(here)));
    assert!(!holds_address(&POOL_KEY, &Some(here)));
}

#[test]
fn addresses_compare_byte_by_byte() {
    let mut other = POOL_KEY;
    assert!(same_address(&POOL_KEY, &other));
    other[31] = 0;
    assert!(!same_address(&POOL_KEY, &other));
    other = POOL_KEY;
    other[0] = 0;
    assert!(!same_address(&POOL_KEY, &other));
}

#[test]
fn one_bin_serves_a_sale_of_token_a() {
    let bin = Bin { liquidity: 1_000_000, fee_growth_per_unit_a: 5, fee_growth_per_unit_b: 6 };
    let fill: BinFill = sell_a_in_bin(&bin, 0, 10, 30, 1_000_000).unwrap();
    assert_eq!(fill.amount_out, 997_000);
    assert_eq!(fill.remaining, 0);
    assert_eq!(fill.bin.liquidity, 1_997_000);
    assert_eq!(fill.bin.fee_growth_per_unit_a, 3_000_000_005);
    assert_eq!(fill.bin.fee_growth_per_unit_b, 6);
}

#[test]
fn one_bin_serves_a_sale_of_token_b() {
    let bin = Bin { liquidity: 1_000_000, fee_growth_per_unit_a: 5, fee_growth_per_unit_b: 6 };
    let fill = sell_b_in_bin(&bin, -10, 10, 30, 997_000).unwrap();
    assert_eq!(fill.amount_out, 1_000_000);
    assert_eq!(fill.remaining, 3938);
    assert_eq!(fill.bin.liquidity, 0);
    assert_eq!(fill.bin.fee_growth_per_unit_a, 5);
    assert_eq!(fill.bin.fee_growth_per_unit_b, 2_979_000_006);
}

#[test]
fn a_bin_worth_nothing_is_passed_over() {
    let empty = Bin { liquidity: 0, fee_growth_per_unit_a: 5, fee_growth_per_unit_b: 6 };
    let fill = sell_a_in_bin(&empty, 0, 10, 30, 1000).unwrap();
    assert_eq!((fill.amount_out, fill.remaining, fill.bin.liquidity), (0, 1000, 0));
    let fill = sell_b_in_bin(&empty, 0, 10, 30, 1000).unwrap();
    assert_eq!((fill.amount_out, fill.remaining, fill.bin.liquidity), (0, 1000, 0));
    // an empty bin has no price to fail on when token B is sold
    assert!(sell_b_in_bin(&empty, 0, 0, 30, 1000).is_ok());
    assert_eq!(sell_a_in_bin(&empty, 0, 0, 30, 1000).err(), Some(MyError::InvalidBinStep));
}

#[test]
fn a_fee_rate_of_everything_is_refused() {
    let bin = Bin { liquidity: 1_000_000, fee_growth_per_unit_a: 0, fee_growth_per_unit_b: 0 };
    assert_eq!(sell_a_in_bin(&bin, 0, 10, 10_000, 1000).err(), Some(MyError::MathOverflow));
    assert_eq!(sell_b_in_bin(&bin, 0, 10, 10_001, 1000).err(), Some(MyError::MathOverflow));
}

#[test]
fn an_input_that_the_charge_overshoots_is_refused() {
    let bin = Bin { liquidity: 1_000_000, fee_growth_per_unit_a: 0, fee_growth_per_unit_b: 0 };
    assert_eq!(sell_a_in_bin(&bin, 0, 10, 30, 333).err(), Some(MyError::MathOverflow));
}

#[test]
fn selling_token_a_walks_down_from_the_active_bin() {
    let pool = pool(0, 10, 30);
    let mut accounts = vec![account(0, 1_000_000), account(-10, 1_000_000), account(-20, 1_000_000)];
    assert_eq!(swap_a_to_b(&pool, &POOL_KEY, 1_000_000, &mut accounts, &PROGRAM_ID), Ok((997_000, -10)));
    assert_eq!(bins(&accounts), vec![(1_997_000, 3_000_000_000, 0), (1_000_000, 0, 0), (1_000_000, 0, 0)]);
}

#[test]
fn selling_token_a_can_empty_a_bin_exactly() {
    let pool = pool(0, 10, 30);
    let mut accounts = vec![account(0, 1_000_000)];
    assert_eq!(swap_a_to_b(&pool, &POOL_KEY, 1_003_009, &mut accounts, &PROGRAM_ID), Ok((1_000_000, -10)));
    assert_eq!(bins(&accounts), vec![(2_000_000, 3_009_000_000, 0)]);
}

#[test]
fn selling_token_b_walks_up_from_the_active_bin() {
    let pool = pool(0, 10, 30);
    let mut accounts = vec![account(0, 1_000_000), account(10, 1_000_000), account(20, 1_000_000)];
    assert_eq!(swap_b_to_a(&pool, &POOL_KEY, 1_034_666, &mut accounts, &PROGRAM_ID), Ok((1_031_250, 20)));
    assert_eq!(bins(&accounts), vec![(0, 0, 3_009_000_000), (968_750, 0, 94_000_000), (1_000_000, 0, 0)]);
}

#[test]
fn selling_nothing_touches_nothing() {
    let pool = pool(0, 10, 30);
    let mut accounts: Vec<BinAccount> = Vec::new();
    assert_eq!(swap_a_to_b(&pool, &POOL_KEY, 0, &mut accounts, &PROGRAM_ID), Ok((0, 0)));
    assert_eq!(swap_b_to_a(&pool, &POOL_KEY, 0, &mut accounts, &PROGRAM_ID), Ok((0, 0)));
}

#[test]
fn a_walk_that_runs_out_of_bins_is_refused_and_rolled_back() {
    let pool = pool(0, 10, 30);
    let mut accounts = vec![account(0, 1_000_000), account(-10, 1_000_000)];
    let before = bins(&accounts);
    assert_eq!(
        swap_a_to_b(&pool, &POOL_KEY, 2_000_000, &mut accounts, &PROGRAM_ID),
        Err(MyError::InsufficientLiquidityForSwap)
    );
    assert_eq!(bins(&accounts), before);
    let mut none: Vec<BinAccount> = Vec::new();
    assert_eq!(swap_b_to_a(&pool, &POOL_KEY, 1, &mut none, &PROGRAM_ID), Err(MyError::InsufficientLiquidityForSwap));
}

#[test]
fn a_walk_over_a_wrong_account_is_refused_and_rolled_back() {
    let pool = pool(0, 10, 30);
    // the second account is that of the bin above, not below
    let mut accounts = vec![account(0, 1_000_000), account(10, 1_000_000)];
    let before = bins(&accounts);
    assert_eq!(swap_a_to_b(&pool, &POOL_KEY, 1_003_010, &mut accounts, &PROGRAM_ID), Err(MyError::InvalidBinAccount));
    assert_eq!(bins(&accounts), before);
    // a gap in the walk
    let mut gap = vec![account(0, 1_000_000), account(20, 1_000_000)];
    assert_eq!(swap_b_to_a(&pool, &POOL_KEY, 2_000_000, &mut gap, &PROGRAM_ID), Err(MyError::InvalidBinAccount));
    // the first account must be the active bin's
    let mut wrong = vec![account(-10, 1_000_000)];
    assert_eq!(swap_a_to_b(&pool, &POOL_KEY, 10, &mut wrong, &PROGRAM_ID), Err(MyError::InvalidBinAccount));
}

#[test]
fn a_walk_on_a_curve_without_step_is_refused() {
    let pool = pool(0, 0, 30);
    let mut accounts = vec![account(0, 1_000_000)];
    assert_eq!(swap_a_to_b(&pool, &POOL_KEY, 10, &mut accounts, &PROGRAM_ID), Err(MyError::InvalidBinStep));
    assert_eq!(swap_b_to_a(&pool, &POOL_KEY, 10, &mut accounts, &PROGRAM_ID), Err(MyError::InvalidBinStep));
}

#[test]
fn a_walk_past_the_last_bin_id_is_refused() {
    let low = pool(i32::MIN, 10, 30);
    let mut accounts = vec![account(i32::MIN, 0)];
    assert_eq!(swap_b_to_a(&low, &POOL_KEY, 10, &mut accounts, &PROGRAM_ID), Err(MyError::InsufficientLiquidityForSwap));
    let high = pool(i32::MAX, 10, 30);
    let mut accounts = vec![account(i32::MAX, 0)];
    assert_eq!(swap_b_to_a(&high, &POOL_KEY, 10, &mut accounts, &PROGRAM_ID), Err(MyError::MathOverflow));
}

#[test]
fn selling_back_through_the_bin_below_returns_more_than_was_sold() {
    // The sale leaves the active bin one step down; the way back starts in
    // that cheaper bin and takes its token A first.
    let pool = pool(0, 10, 30);
    let mut accounts = vec![account(-20, 1_000_000), account(-10, 1_000_000), account(0, 1_000_000)];
    let mut down = vec![accounts[2], accounts[1], accounts[0]];
    let (received, rest_at) = swap_a_to_b(&pool, &POOL_KEY, 1_000_000, &mut down, &PROGRAM_ID).unwrap();
    assert_eq!((received, rest_at), (997_000, -10));
    accounts = vec![down[2], down[1], down[0]];
    let after = self::pool(rest_at, 10, 30);
    let mut up = vec![accounts[1], accounts[2]];
    assert_eq!(swap_b_to_a(&after, &POOL_KEY, received, &mut up, &PROGRAM_ID), Ok((1_003_927, 10)));
    assert_eq!(bins(&up), vec![(0, 0, 2_979_000_000), (1_993_073, 3_000_000_000, 5_508_262)]);
}

#[test]
fn selling_back_into_the_same_bin_returns_less_than_was_sold() {
    let pool = pool(0, 10, 30);
    let mut down = vec![account(0, 1_000_000)];
    let (received, rest_at) = swap_a_to_b(&pool, &POOL_KEY, 1_000_000, &mut down, &PROGRAM_ID).unwrap();
    let after = self::pool(rest_at, 10, 30);
    let mut up = vec![account(-10, 0), down[0]];
    let (back, _) = swap_b_to_a(&after, &POOL_KEY, received, &mut up, &PROGRAM_ID).unwrap();
    assert!(back < 1_000_000);
}

#[test]
fn a_sale_neither_makes_nor_loses_liquidity() {
    let pool = pool(0, 10, 30);
    let held = |accounts: &Vec<BinAccount>| accounts.iter().map(|a| a.bin.liquidity).sum::<u128>();
    // token B sold: the bins give up exactly what is paid out
    let mut up = vec![account(0, 1_000_000), account(10, 1_000_000), account(20, 1_000_000)];
    let before = held(&up);
    let (paid_out, _) = swap_b_to_a(&pool, &POOL_KEY, 1_034_666, &mut up, &PROGRAM_ID).unwrap();
    assert_eq!(before - held(&up), paid_out as u128);
    // token A sold: the bins take in what was sold less the fee
    let mut down = vec![account(0, 1_000_000), account(-10, 1_000_000)];
    let before = held(&down);
    swap_a_to_b(&pool, &POOL_KEY, 1_000_000, &mut down, &PROGRAM_ID).unwrap();
    assert_eq!(held(&down) - before, 997_000);
    assert!(held(&down) - before <= 1_000_000);
}

#[test]
fn a_sale_that_pays_out_more_than_64_bits_is_refused() {
    // at bin -1000 with a step of 200 a unit of token B buys some 390 million
    // units of token A
    let pool = pool(-1000, 200, 0);
    let liquidity: u128 = 200_000_000_000_000_000_000;
    let mut accounts = vec![account(-1000, liquidity)];
    // 2559 * 10^6 of token B buy 10^18 of token A: granted
    assert_eq!(swap_b_to_a(&pool, &POOL_KEY, 2_559_000_000, &mut accounts, &PROGRAM_ID), Ok((1_000_000_000_000_000_000, -800)));
    // 2559 * 10^8 would buy 10^20: more than 64 bits hold
    let before = bins(&accounts);
    assert_eq!(swap_b_to_a(&pool, &POOL_KEY, 255_900_000_000, &mut accounts, &PROGRAM_ID), Err(MyError::MathOverflow));
    assert_eq!(bins(&accounts), before);
}

#[test]
fn a_way_back_above_the_bin_of_the_sale_is_bounded() {
    let pool = pool(0, 10, 30);
    let mut down = vec![account(0, 1_000_000), account(-10, 0)];
    let (received, rest_at) = swap_a_to_b(&pool, &POOL_KEY, 1_000_000, &mut down, &PROGRAM_ID).unwrap();
    assert_eq!((received, rest_at), (997_000, -10));
    let after = self::pool(rest_at, 10, 30);
    let mut up = vec![account(-10, 0), down[0], account(10, 1_000_000), account(20, 1_000_000)];
    let (returned, back_at) = swap_b_to_a(&after, &POOL_KEY, received, &mut up, &PROGRAM_ID).unwrap();
    assert_eq!((returned, back_at), (994_009, 10));
    // worth no more than what was kept of the input, but for the rounding
    let price: u128 = 1_000_000_000_000;
    let kept: u128 = 1_000_000 - 3000;
    let rounding: u128 = 3 * (1_000_000_000_000 - 1);
    assert!(returned as u128 * price <= kept * price + rounding);
    assert!(returned < 1_000_000);
}
