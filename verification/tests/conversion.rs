use oracle::decimal::{checked_pow10, NumberValue};
use oracle::value::{Fixed, NumberType, PrimitiveOracleType};
use sp_runtime::{FixedPointNumber, FixedU128};

const ONE: u128 = 1_000_000_000_000_000_000;

fn literal(integer: i64, fraction: u64, fraction_length: u32, exponent: i32) -> NumberValue {
    NumberValue::new(integer, fraction, fraction_length, exponent)
}

fn fixed(inner: u128) -> Option<PrimitiveOracleType> {
    Some(PrimitiveOracleType::FixedU128(Fixed::from_inner(inner)))
}

fn to_fixed(val: NumberValue) -> Option<PrimitiveOracleType> {
    PrimitiveOracleType::from_number_value(val, NumberType::FixedU128)
}

#[test]
fn integer_literal_keeps_its_integer_part() {
    let r = PrimitiveOracleType::from_number_value(literal(42, 5, 1, 0), NumberType::U128);
    assert_eq!(r, Some(PrimitiveOracleType::U128(42)));
    let r = PrimitiveOracleType::from_number_value(literal(0, 0, 0, 0), NumberType::U128);
    assert_eq!(r, Some(PrimitiveOracleType::U128(0)));
}

#[test]
fn integer_literal_ignores_the_exponent() {
    let r = PrimitiveOracleType::from_number_value(literal(7, 0, 0, 3), NumberType::U128);
    assert_eq!(r, Some(PrimitiveOracleType::U128(7)));
}

#[test]
fn largest_integer_literal() {
    let r = PrimitiveOracleType::from_number_value(literal(i64::MAX, 0, 0, 0), NumberType::U128);
    assert_eq!(r, Some(PrimitiveOracleType::U128(9_223_372_036_854_775_807)));
}

#[test]
fn negative_literal_is_refused_for_both_kinds() {
    for val in [literal(-1, 0, 0, 0), literal(-5, 25, 2, 1), literal(i64::MIN, 0, 0, 0)] {
        assert_eq!(PrimitiveOracleType::from_number_value(val, NumberType::U128), None);
        assert_eq!(PrimitiveOracleType::from_number_value(val, NumberType::FixedU128), None);
    }
}

#[test]
fn decimal_literal_is_exact() {
    // 1.35
    assert_eq!(to_fixed(literal(1, 35, 2, 0)), fixed(1_350_000_000_000_000_000));
}

#[test]
fn decimal_literal_with_positive_exponent() {
    // 1.35e3 = 1350
    assert_eq!(to_fixed(literal(1, 35, 2, 3)), fixed(1350 * ONE));
    // 2e2 = 200
    assert_eq!(to_fixed(literal(2, 0, 0, 2)), fixed(200 * ONE));
}

#[test]
fn decimal_literal_with_negative_exponent() {
    // 1.35e-2 = 0.0135
    assert_eq!(to_fixed(literal(1, 35, 2, -2)), fixed(13_500_000_000_000_000));
}

#[test]
fn decimal_literal_with_leading_zeros_in_the_fraction() {
    // 0.001
    assert_eq!(to_fixed(literal(0, 1, 3, 0)), fixed(1_000_000_000_000_000));
    // 12.0056
    assert_eq!(to_fixed(literal(12, 56, 4, 0)), fixed(12_005_600_000_000_000_000));
}

#[test]
fn smallest_decimal_step() {
    // 1e-18
    assert_eq!(to_fixed(literal(1, 0, 0, -18)), fixed(1));
    // 0.000000000000000001
    assert_eq!(to_fixed(literal(0, 1, 18, 0)), fixed(1));
}

#[test]
fn decimal_zero() {
    assert_eq!(to_fixed(literal(0, 0, 0, 0)), fixed(0));
}

#[test]
fn decimal_literal_out_of_range_is_refused() {
    // nineteen digits after the point
    assert_eq!(to_fixed(literal(0, 1, 19, 0)), None);
    // 1e-19
    assert_eq!(to_fixed(literal(1, 0, 0, -19)), None);
    // 1e19 does not fit a 64-bit numerator
    assert_eq!(to_fixed(literal(1, 0, 0, 19)), None);
    // 10e18 neither
    assert_eq!(to_fixed(literal(10, 0, 0, 18)), None);
    // the mantissa does not fit
    assert_eq!(to_fixed(literal(i64::MAX, 5, 1, 0)), None);
    assert_eq!(to_fixed(literal(1, u64::MAX, 1, 0)), None);
    assert_eq!(to_fixed(literal(0, u64::MAX, 1, 0)), None);
    // more than eighteen digits after the point are left
    assert_eq!(to_fixed(literal(0, 10, 19, 0)), None);
    assert_eq!(to_fixed(literal(5, 0, 0, -19)), None);
}

#[test]
fn zero_has_a_value_whatever_its_parts() {
    assert_eq!(to_fixed(literal(0, 0, u32::MAX, i32::MIN)), fixed(0));
    assert_eq!(to_fixed(literal(0, 0, 0, i32::MAX)), fixed(0));
    assert_eq!(to_fixed(literal(0, 0, 0, i32::MIN)), fixed(0));
    assert_eq!(to_fixed(literal(0, 0, 25, 0)), fixed(0));
    assert_eq!(to_fixed(literal(0, 0, 19, 40)), fixed(0));
}

#[test]
fn many_fraction_digits_behind_a_zero_integer_part() {
    // 0.0000000000000000005e5 = 5e-14
    assert_eq!(to_fixed(literal(0, 5, 19, 5)), fixed(50_000));
    // 0.00000000000000000123e10 = 1.23e-8
    assert_eq!(to_fixed(literal(0, 123, 20, 10)), fixed(12_300_000_000));
    // 0.00000000000000000001e20 = 1
    assert_eq!(to_fixed(literal(0, 1, 20, 20)), fixed(ONE));
    // 0.0000000000000000000001e25 = 1000
    assert_eq!(to_fixed(literal(0, 1, 22, 25)), fixed(1000 * ONE));
    // with an integer part the scale must fit
    assert_eq!(to_fixed(literal(1, 5, 19, 5)), None);
}

#[test]
fn largest_decimal_numerator() {
    assert_eq!(
        to_fixed(literal(i64::MAX, 0, 0, 0)),
        fixed(9_223_372_036_854_775_807 * ONE)
    );
    // 9e18
    assert_eq!(to_fixed(literal(9, 0, 0, 18)), fixed(9_000_000_000_000_000_000 * ONE));
}

#[test]
fn decimal_conversion_agrees_with_the_fixed_point_type() {
    let cases = [
        (literal(1, 35, 2, 0), 135u128, 100u128),
        (literal(3, 14159, 5, 0), 314_159, 100_000),
        (literal(1, 5, 1, -3), 15, 10_000),
        (literal(7, 25, 2, 4), 72_500, 1),
    ];
    for (val, n, d) in cases {
        let expected = FixedU128::from_rational(n, d).into_inner();
        assert_eq!(to_fixed(val), fixed(expected));
    }
}

#[test]
fn decimal_conversion_reads_back_as_the_literal() {
    // 123.456e-1 = 12.3456: inner / 10^18 must be 123456 / 10^4
    let r = to_fixed(literal(123, 456, 3, -1)).unwrap();
    let inner = r.into_raw();
    assert_eq!(inner * 10_000, 123_456 * ONE);
    assert_eq!(r.number_type(), NumberType::FixedU128);
}

#[test]
fn powers_of_ten() {
    assert_eq!(checked_pow10(0), Some(1));
    assert_eq!(checked_pow10(1), Some(10));
    assert_eq!(checked_pow10(18), Some(1_000_000_000_000_000_000));
    assert_eq!(checked_pow10(19), None);
    assert_eq!(checked_pow10(u64::MAX), None);
}
