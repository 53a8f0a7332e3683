use substrate_dex::types::FeeRate;

#[test]
fn div_works() {
    let fee_rate = FeeRate::from_percent(110);
    assert_eq!(FeeRate::div(10, fee_rate), 9); // Float value would be 9.0909

    let fee_rate = FeeRate::from_percent(10);
    assert_eq!(FeeRate::div(10, fee_rate), 100);
}

#[test]
fn safe_div_works() {
    let fee_rate = FeeRate::from_percent(110);
    let lhs: u128 = 10;
    assert_eq!(FeeRate::safe_div(lhs, fee_rate), Ok(9u128)); // Float value would be 9.0909

    let fee_rate = FeeRate::from_percent(10);
    assert_eq!(FeeRate::safe_div(lhs, fee_rate), Ok(100u128));
}

#[test]
fn safe_div_overflow_works() {
    let fee_rate = FeeRate::from_percent(10);
    let lhs: u128 = u128::max_value();
    assert_eq!(FeeRate::safe_div(lhs, fee_rate), Err("Overflow error"));
}

#[test]
fn add_works() {
    let fee_rate = FeeRate::from_percent(50) + FeeRate::from_percent(12);
    assert_eq!(fee_rate, FeeRate::from_percent(62));
}

#[test]
fn safe_mul_works() {
    let fee_rate = FeeRate::from_percent(50);
    let rhs: u128 = 2;
    assert_eq!(FeeRate::safe_mul(fee_rate, rhs), Ok(1u128));
}

#[test]
fn safe_mul_overflow_works() {
    let fee_rate = FeeRate::from_percent(200);
    let rhs: u128 = u128::max_value();
    assert_eq!(FeeRate::safe_mul(fee_rate, rhs), Err("Overflow error"));
}

#[test]
fn fee_rate_scales() {
    assert_eq!(FeeRate::from_percent(1).0, 10_000);
    assert_eq!(FeeRate::from_milli(1).0, 1_000);
    assert_eq!(FeeRate::one(), FeeRate::from_percent(100));
    assert_eq!(FeeRate::one(), FeeRate::from_milli(1000));
    assert_eq!(FeeRate::from_milli(250) + FeeRate::from_milli(750), FeeRate::one());
}

#[test]
fn fee_rate_wide_arithmetic_exact() {
    // 2^120 fits a u128, but times the scale factor it needs 256 bits
    let big: u128 = 1u128 << 120;
    assert_eq!(FeeRate::safe_div(big, FeeRate::from_percent(200)), Ok(big / 2));
    assert_eq!(FeeRate::safe_mul(FeeRate::from_percent(50), big), Ok(big / 2));
    assert_eq!(FeeRate::safe_div(7, FeeRate::from_milli(3)), Ok(2333));
    assert_eq!(FeeRate::safe_mul(FeeRate::from_milli(3), 7), Ok(0));
}
