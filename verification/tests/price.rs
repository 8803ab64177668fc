use dloom_flow::constants::{ALLOWED_PARAMETERS, BASIS_POINT_MAX, MAX_BINS_PER_POSITION, PRECISION};
use dloom_flow::errors::MyError;
use dloom_flow::math::get_price_at_bin;

#[test]
fn constants_have_their_values() {
    assert_eq!(BASIS_POINT_MAX, 10_000);
    assert_eq!(PRECISION, 1_000_000_000_000);
    assert_eq!(MAX_BINS_PER_POSITION, 500);
    assert_eq!(ALLOWED_PARAMETERS.len(), 9);
    assert_eq!(ALLOWED_PARAMETERS[0], (1, 10));
    assert_eq!(ALLOWED_PARAMETERS[8], (200, 500));
}

#[test]
fn price_at_bin_zero_is_precision() {
    for step in [1u16, 5, 10, 20, 50, 100, 200, u16::MAX] {
        assert_eq!(get_price_at_bin(0, step), Ok(PRECISION));
    }
}

#[test]
fn price_with_zero_step_is_refused() {
    for bin_id in [i32::MIN, -10, 0, 1, 255, i32::MAX] {
        assert_eq!(get_price_at_bin(bin_id, 0), Err(MyError::InvalidBinStep));
    }
}

#[test]
fn price_one_bin_up_and_down() {
    assert_eq!(get_price_at_bin(1, 1), Ok(1_000_100_000_000));
    assert_eq!(get_price_at_bin(-1, 1), Ok(999_900_009_999));
    assert_eq!(get_price_at_bin(3, 1), Ok(1_000_300_020_000));
}

#[test]
fn price_follows_the_squaring_ladder() {
    assert_eq!(get_price_at_bin(10, 10), Ok(1_010_016_000_000));
    assert_eq!(get_price_at_bin(20, 10), Ok(1_020_064_000_000));
    assert_eq!(get_price_at_bin(7, 20), Ok(1_014_056_064_000));
    assert_eq!(get_price_at_bin(100, 100), Ok(2_702_131_639_240));
    assert_eq!(get_price_at_bin(1000, 200), Ok(390_644_605_921_419_711_248));
}

#[test]
fn price_below_zero_is_the_reciprocal() {
    assert_eq!(get_price_at_bin(-10, 10), Ok(990_083_325_412));
    assert_eq!(get_price_at_bin(-20, 10), Ok(980_330_645_920));
    assert_eq!(get_price_at_bin(-100, 100), Ok(370_078_195_110));
    assert_eq!(get_price_at_bin(-1000, 200), Ok(2559));
    assert_eq!(get_price_at_bin(-2000, 200), Ok(0));
}

#[test]
fn price_overflow_is_refused() {
    assert_eq!(get_price_at_bin(2500, 200), Err(MyError::MathOverflow));
    assert_eq!(get_price_at_bin(-2600, 200), Err(MyError::MathOverflow));
    assert_eq!(get_price_at_bin(i32::MAX, 200), Err(MyError::MathOverflow));
    assert_eq!(get_price_at_bin(i32::MIN, 200), Err(MyError::MathOverflow));
}

#[test]
fn price_rises_through_bin_zero() {
    for step in [1u16, 10, 200] {
        let below = get_price_at_bin(-30, step).unwrap();
        let at = get_price_at_bin(0, step).unwrap();
        let above = get_price_at_bin(30, step).unwrap();
        assert!(below < at);
        assert!(at < above);
    }
}

#[test]
fn price_rises_when_binary_digits_are_added() {
    // 0b0101 -> 0b0111 -> 0b1111
    let a = get_price_at_bin(5, 1).unwrap();
    let b = get_price_at_bin(7, 1).unwrap();
    let c = get_price_at_bin(15, 1).unwrap();
    assert!(a < b);
    assert!(b < c);
}

#[test]
fn price_times_mirror_price_is_close_to_precision_squared() {
    let square = PRECISION * PRECISION;
    for (bin_id, step) in [(1, 1u16), (10, 10), (255, 1), (100, 100), (1000, 200)] {
        let above = get_price_at_bin(bin_id, step).unwrap();
        let below = get_price_at_bin(-bin_id, step).unwrap();
        assert!(above * below <= square);
        assert!(square - above * below < above);
    }
}

#[test]
fn price_dips_where_the_ladder_rounds() {
    // With a step of one basis point the squared bases lose their last
    // digits, and bin 256 comes out below bin 255.
    assert_eq!(get_price_at_bin(255, 1), Ok(1_025_716_678_524));
    assert_eq!(get_price_at_bin(256, 1), Ok(1_025_700_000_000));
}

#[test]
fn price_never_exceeds_the_exact_power() {
    for step in [1u128, 10, 200, 65_535] {
        let mut scale: u128 = 1;
        let mut power: u128 = 1;
        for bin_id in 0..=5 {
            let price = get_price_at_bin(bin_id, step as u16).unwrap();
            assert!(price * scale <= PRECISION * power);
            scale *= 10_000;
            power *= 10_000 + step;
        }
    }
    // one step up is exact
    assert_eq!(get_price_at_bin(1, 200), Ok(PRECISION * 10_200 / 10_000));
}

#[test]
fn price_below_zero_does_not_fall_when_binary_digits_are_dropped() {
    // -0b1111 -> -0b0111 -> -0b0101
    let a = get_price_at_bin(-15, 1).unwrap();
    let b = get_price_at_bin(-7, 1).unwrap();
    let c = get_price_at_bin(-5, 1).unwrap();
    assert!(a <= b);
    assert!(b <= c);
}

#[test]
fn price_never_falls_below_the_straight_line() {
    for (bin_id, step) in [(0i32, 1u16), (1, 1), (255, 1), (256, 1), (10, 10), (1000, 200), (25, 65_535)] {
        let price = get_price_at_bin(bin_id, step).unwrap();
        assert!(price >= PRECISION + 100_000_000 * (bin_id as u128) * (step as u128));
    }
    // one step up lies on the line
    assert_eq!(get_price_at_bin(1, 7), Ok(PRECISION + 100_000_000 * 7));
}

#[test]
fn price_rises_from_bin_one() {
    for step in [1u16, 10, 200, 65_535] {
        let one = get_price_at_bin(1, step).unwrap();
        for upper in [2, 3, 4, 7] {
            assert!(one < get_price_at_bin(upper, step).unwrap());
        }
    }
}

#[test]
fn price_order_is_decided_below_the_digits_shared() {
    // 1025 and 1026 share the digit of 1024; 1 and 2 decide
    for step in [1u16, 10] {
        assert!(get_price_at_bin(1, step).unwrap() < get_price_at_bin(2, step).unwrap());
        assert!(get_price_at_bin(1025, step).unwrap() < get_price_at_bin(1026, step).unwrap());
    }
    // 255 and 256 dip at step 1, and so do 1279 and 1280, which add the digit of 1024
    assert!(get_price_at_bin(255, 1).unwrap() > get_price_at_bin(256, 1).unwrap());
    assert!(get_price_at_bin(1279, 1).unwrap() >= get_price_at_bin(1280, 1).unwrap());
}
