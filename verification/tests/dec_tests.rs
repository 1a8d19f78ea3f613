//! Tests for the fixed-point decimal type and its parser.

use furucombo_arbitrage::dec::{
    parse_dec, ratio_pct, spread_exceeds_threshold, spread_pct, Dec, MAX_WHOLE, UNIT,
};

#[test]
fn test_parse_whole_number() {
    assert_eq!(parse_dec("1850").unwrap().raw(), 1850 * UNIT);
    assert_eq!(parse_dec("0").unwrap().raw(), 0);
}

#[test]
fn test_parse_fractional() {
    assert_eq!(parse_dec("1800.50").unwrap().raw(), 1_800_500_000_000);
    assert_eq!(parse_dec(".5").unwrap().raw(), 500_000_000);
    assert_eq!(parse_dec("2.").unwrap().raw(), 2 * UNIT);
    assert_eq!(parse_dec("0.000000001").unwrap().raw(), 1);
}

#[test]
fn test_parse_truncates_beyond_ninth_place() {
    assert_eq!(parse_dec("1.2345678901").unwrap().raw(), 1_234_567_890);
    assert_eq!(parse_dec("0.0000000001").unwrap().raw(), 0);
}

#[test]
fn test_parse_rejects_malformed() {
    assert!(parse_dec("").is_none());
    assert!(parse_dec(".").is_none());
    assert!(parse_dec("1.2.3").is_none());
    assert!(parse_dec("1e5").is_none());
    assert!(parse_dec("abc").is_none());
    assert!(parse_dec("12a").is_none());
    assert!(parse_dec("5-").is_none());
    assert!(parse_dec("--5").is_none());
    assert!(parse_dec("+-5").is_none());
    assert!(parse_dec("-").is_none());
    assert!(parse_dec("+").is_none());
}

#[test]
fn test_parse_sign() {
    assert_eq!(parse_dec("-5").unwrap().raw(), -5 * UNIT);
    assert_eq!(parse_dec("+5").unwrap().raw(), 5 * UNIT);
    assert_eq!(parse_dec("-1800.50").unwrap().raw(), -1_800_500_000_000);
    assert_eq!(parse_dec("-0").unwrap().raw(), 0);
}

#[test]
fn test_parse_separators() {
    // a separator may stand anywhere after the first digit
    assert_eq!(parse_dec("1_000").unwrap().raw(), 1000 * UNIT);
    assert_eq!(parse_dec("-1_800.50").unwrap().raw(), -1_800_500_000_000);
    assert_eq!(parse_dec("1_").unwrap().raw(), 1 * UNIT);
    assert_eq!(parse_dec("1._5").unwrap().raw(), 1_500_000_000);
    // but never before it
    assert!(parse_dec("_5").is_none());
    assert!(parse_dec("+_1").is_none());
    assert!(parse_dec("._5").is_none());
}

#[test]
fn test_parse_rejects_out_of_range() {
    // one more than the largest representable whole number
    assert!(parse_dec("100000000000000001").is_none());
    assert!(parse_dec("100000000000000000").is_some());
    assert_eq!(MAX_WHOLE, 100_000_000_000_000_000);
}

#[test]
fn test_spread_threshold() {
    // (1852 - 1850) / 1850 * 100 ~ 0.108% -> below the threshold
    let low = Dec::from_int(1850);
    let high = Dec::from_int(1852);
    assert!(!spread_exceeds_threshold(&low, &high));

    // (85 - 80) / 80 * 100 = 6.25% -> above the threshold
    let low = Dec::from_int(80);
    let high = Dec::from_int(85);
    assert!(spread_exceeds_threshold(&low, &high));
    assert_eq!(spread_pct(&low, &high).raw(), 6_250_000_000);

    // a zero minimum price never signals
    let low = Dec::zero();
    let high = Dec::from_int(100);
    assert!(!spread_exceeds_threshold(&low, &high));
}

#[test]
fn test_ratio_pct_rounds_toward_zero() {
    let net = Dec::from_int(1);
    let input = Dec::from_int(3);
    // 1/3 * 100 = 33.333333333...
    assert_eq!(ratio_pct(&net, &input).raw(), 33_333_333_333);
    let neg = parse_dec("1").unwrap();
    let neg = Dec::from_raw(-neg.raw());
    assert_eq!(ratio_pct(&neg, &input).raw(), -33_333_333_333);
}

#[test]
fn test_dec_ordering_matches_value() {
    let a = parse_dec("1.5").unwrap();
    let b = parse_dec("1.50").unwrap();
    let c = parse_dec("2").unwrap();
    assert_eq!(a, b);
    assert!(a < c);
    assert!(a.lt(&c));
    assert!(c.gt(&a));
    assert!(a.le(&b));
    assert!(a.ge(&b));
    assert!(c.is_positive());
    assert!(!Dec::zero().is_positive());
}
