use dloom_flow::address::holds_address;
use dloom_flow::errors::MyError;
use dloom_flow::instructions::add_liquidity::credit_bin;
use dloom_flow::instructions::modify_liquidity::{drain_bin, fund_bin};
use dloom_flow::instructions::remove_liquidity::{collect_from_bin, Collected};
use dloom_flow::math::{visit_bin, WalkState};
use dloom_flow::state::{Address, Bin, BinAccount, Position};

const KEY: Address = [21; 32];
const OTHER: Address = [22; 32];

fn account(liquidity: u128) -> BinAccount {
    BinAccount { key: KEY, bin: Bin { liquidity, fee_growth_per_unit_a: 3_000_000_000, fee_growth_per_unit_b: 4 } }
}

fn position(liquidity: u128) -> Position {
    Position {
        pool: [7; 32],
        owner: [8; 32],
        lower_bin_id: -20,
        upper_bin_id: 20,
        liquidity,
        position_mint: [5; 32],
        fee_growth_snapshot_a: 1_000_000_000,
        fee_growth_snapshot_b: 9,
    }
}

#[test]
fn an_account_holds_the_address_expected_or_not() {
    assert!(holds_address(&KEY, &Some(KEY)));
    assert!(!holds_address(&KEY, &Some(OTHER)));
    assert!(!holds_address(&KEY, &None));
}

#[test]
fn a_visit_serves_the_sale_and_moves_on() {
    let state = WalkState { remaining: 1_000_000, amount_out: 5, bin_id: 0 };
    let (bin, next) = visit_bin(true, &account(1_000_000), &Some(KEY), 10, 30, state).unwrap();
    assert_eq!(bin, Bin { liquidity: 1_997_000, fee_growth_per_unit_a: 6_000_000_000, fee_growth_per_unit_b: 4 });
    assert_eq!(next, WalkState { remaining: 0, amount_out: 997_005, bin_id: -10 });
    let state = WalkState { remaining: 997_000, amount_out: 0, bin_id: -10 };
    let (bin, next) = visit_bin(false, &account(1_000_000), &Some(KEY), 10, 30, state).unwrap();
    assert_eq!(bin, Bin { liquidity: 0, fee_growth_per_unit_a: 3_000_000_000, fee_growth_per_unit_b: 2_979_000_004 });
    assert_eq!(next, WalkState { remaining: 3938, amount_out: 1_000_000, bin_id: 0 });
}

#[test]
fn a_visit_is_refused() {
    let state = WalkState { remaining: 1_000_000, amount_out: 5, bin_id: 0 };
    assert_eq!(visit_bin(true, &account(1_000_000), &Some(OTHER), 10, 30, state), Err(MyError::InvalidBinAccount));
    assert_eq!(visit_bin(true, &account(1_000_000), &None, 10, 30, state), Err(MyError::InvalidBinAccount));
    assert_eq!(visit_bin(true, &account(1_000_000), &Some(KEY), 0, 30, state), Err(MyError::InvalidBinStep));
    let full = WalkState { remaining: 1_000_000, amount_out: u128::MAX, bin_id: 0 };
    assert_eq!(visit_bin(true, &account(1_000_000), &Some(KEY), 10, 30, full), Err(MyError::MathOverflow));
    let low = WalkState { remaining: 1, amount_out: 0, bin_id: i32::MIN };
    assert_eq!(visit_bin(true, &account(0), &Some(KEY), 1, 30, low), Err(MyError::MathOverflow));
    let high = WalkState { remaining: 1, amount_out: 0, bin_id: i32::MAX };
    assert_eq!(visit_bin(false, &account(0), &Some(KEY), 1, 30, high), Err(MyError::MathOverflow));
}

#[test]
fn a_credit_adds_liquidity_and_steps_up() {
    let (credited, next) = credit_bin(&account(5), &Some(KEY), -10, 10, 7).unwrap();
    assert_eq!(credited, account(12));
    assert_eq!(next, 0);
    assert_eq!(credit_bin(&account(5), &Some(OTHER), -10, 10, 7), Err(MyError::InvalidBinAccount));
    assert_eq!(credit_bin(&account(u128::MAX), &Some(KEY), -10, 10, 1), Err(MyError::MathOverflow));
    assert_eq!(credit_bin(&account(5), &Some(KEY), i32::MAX - 9, 10, 7), Err(MyError::MathOverflow));
    assert_eq!(credit_bin(&account(5), &Some(KEY), i32::MAX - 10, 10, 7).unwrap().1, i32::MAX);
}

#[test]
fn a_collection_adds_fees_and_raises_the_marks() {
    let so_far = Collected { fees_a: 10, fees_b: 20, fee_growth_a: 2_000_000_000, fee_growth_b: 50 };
    let (seen, next) = collect_from_bin(&account(0), &Some(KEY), &position(1_000_000), 10, 10, so_far).unwrap();
    assert_eq!((seen.fees_a, seen.fees_b), (2010, 20));
    assert_eq!((seen.fee_growth_a, seen.fee_growth_b), (3_000_000_000, 50));
    assert_eq!(next, 20);
    assert_eq!(collect_from_bin(&account(0), &None, &position(1), 10, 10, so_far).err(), Some(MyError::InvalidBinAccount));
    let brim = Collected { fees_a: u64::MAX - 1999, fees_b: 0, fee_growth_a: 0, fee_growth_b: 0 };
    assert_eq!(collect_from_bin(&account(0), &Some(KEY), &position(1_000_000), 10, 10, brim).err(), Some(MyError::MathOverflow));
}

#[test]
fn a_drain_takes_liquidity_and_adds_fees() {
    let (bin, fees_a, fees_b, next) = drain_bin(&account(12), &Some(KEY), &position(1_000_000), 7, 10, 10, (1, 2)).unwrap();
    assert_eq!(bin, account(5).bin);
    assert_eq!((fees_a, fees_b, next), (2001, 2, 20));
    assert_eq!(drain_bin(&account(6), &Some(KEY), &position(1), 7, 10, 10, (0, 0)), Err(MyError::MathOverflow));
    assert_eq!(drain_bin(&account(12), &Some(OTHER), &position(1), 7, 10, 10, (0, 0)), Err(MyError::InvalidBinAccount));
    assert_eq!(drain_bin(&account(12), &Some(KEY), &position(1_000_000), 7, 10, 10, (u128::MAX, 0)), Err(MyError::MathOverflow));
}

#[test]
fn a_funding_adds_liquidity_and_raises_the_marks() {
    let (bin, mark_a, mark_b, next) = fund_bin(&account(5), &Some(KEY), 7, 10, 10, (1, 100)).unwrap();
    assert_eq!(bin, account(12).bin);
    assert_eq!((mark_a, mark_b, next), (3_000_000_000, 100, 20));
    assert_eq!(fund_bin(&account(5), &None, 7, 10, 10, (0, 0)), Err(MyError::InvalidBinAccount));
    assert_eq!(fund_bin(&account(u128::MAX - 6), &Some(KEY), 7, 10, 10, (0, 0)), Err(MyError::MathOverflow));
}
