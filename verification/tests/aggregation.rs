use oracle::aggregate::{aggregate, calc_impl};
use oracle::value::{Fixed, NumberType, Operations, PrimitiveOracleType};
use sp_runtime::{FixedPointNumber, FixedU128};

const ONE: u128 = 1_000_000_000_000_000_000;

fn whole(n: u128) -> PrimitiveOracleType {
    PrimitiveOracleType::U128(n)
}

fn dec(inner: u128) -> PrimitiveOracleType {
    PrimitiveOracleType::FixedU128(Fixed::from_inner(inner))
}

#[test]
fn sum_of_two_integers() {
    assert_eq!(calc_impl(&[3, 7], NumberType::U128, Operations::Sum), 10);
    assert_eq!(aggregate(&vec![whole(3), whole(7)], NumberType::U128, Operations::Sum), whole(10));
}

#[test]
fn sum_saturates_at_the_largest_integer() {
    assert_eq!(calc_impl(&[u128::MAX, 1], NumberType::U128, Operations::Sum), u128::MAX);
    assert_eq!(calc_impl(&[u128::MAX - 1, 1], NumberType::U128, Operations::Sum), u128::MAX);
    assert_eq!(
        calc_impl(&[u128::MAX / 2 + 1, u128::MAX / 2 + 1, 5], NumberType::U128, Operations::Sum),
        u128::MAX
    );
    assert_eq!(
        aggregate(&vec![whole(u128::MAX), whole(1)], NumberType::U128, Operations::Sum),
        whole(u128::MAX)
    );
}

#[test]
fn sum_of_decimals_saturates_too() {
    assert_eq!(calc_impl(&[ONE, 2 * ONE], NumberType::FixedU128, Operations::Sum), 3 * ONE);
    assert_eq!(calc_impl(&[u128::MAX, ONE], NumberType::FixedU128, Operations::Sum), u128::MAX);
}

#[test]
fn sum_of_nothing_is_zero() {
    assert_eq!(calc_impl(&[], NumberType::U128, Operations::Sum), 0);
    assert_eq!(calc_impl(&[], NumberType::FixedU128, Operations::Sum), 0);
}

#[test]
fn average_of_nothing_is_zero() {
    assert_eq!(calc_impl(&[], NumberType::U128, Operations::Average), 0);
    assert_eq!(calc_impl(&[], NumberType::FixedU128, Operations::Average), 0);
    assert_eq!(aggregate(&vec![], NumberType::U128, Operations::Average), whole(0));
    assert_eq!(aggregate(&vec![], NumberType::FixedU128, Operations::Average), dec(0));
}

#[test]
fn average_of_integers_rounds_down() {
    assert_eq!(calc_impl(&[3, 7], NumberType::U128, Operations::Average), 5);
    assert_eq!(calc_impl(&[1, 2], NumberType::U128, Operations::Average), 1);
    assert_eq!(calc_impl(&[9], NumberType::U128, Operations::Average), 9);
}

#[test]
fn average_of_decimals() {
    // (1.5 + 2.5) / 2 = 2
    assert_eq!(
        calc_impl(&[ONE + ONE / 2, 2 * ONE + ONE / 2], NumberType::FixedU128, Operations::Average),
        2 * ONE
    );
    // (1 + 2) / 2 = 1.5
    assert_eq!(
        calc_impl(&[ONE, 2 * ONE], NumberType::FixedU128, Operations::Average),
        ONE + ONE / 2
    );
    // (0.000000000000000001 * 2) / 3 rounds down to zero
    assert_eq!(calc_impl(&[1, 1, 0], NumberType::FixedU128, Operations::Average), 0);
}

#[test]
fn average_of_decimals_agrees_with_the_fixed_point_type() {
    let a = FixedU128::from_rational(7, 4);
    let b = FixedU128::from_rational(1, 8);
    let c = FixedU128::from_rational(22, 7);
    let expected = (a + b + c) / FixedU128::from_inner(3 * ONE);
    assert_eq!(
        calc_impl(
            &[a.into_inner(), b.into_inner(), c.into_inner()],
            NumberType::FixedU128,
            Operations::Average
        ),
        expected.into_inner()
    );
}

#[test]
fn average_uses_the_saturated_sum() {
    assert_eq!(
        calc_impl(&[u128::MAX, u128::MAX], NumberType::U128, Operations::Average),
        u128::MAX / 2
    );
    assert_eq!(
        calc_impl(&[u128::MAX, u128::MAX], NumberType::FixedU128, Operations::Average),
        u128::MAX / 2
    );
}

#[test]
fn values_of_another_kind_are_left_out() {
    let values = vec![whole(3), dec(5 * ONE), whole(7), dec(ONE)];
    assert_eq!(aggregate(&values, NumberType::U128, Operations::Sum), whole(10));
    assert_eq!(aggregate(&values, NumberType::U128, Operations::Average), whole(5));
    assert_eq!(aggregate(&values, NumberType::FixedU128, Operations::Sum), dec(6 * ONE));
    assert_eq!(aggregate(&values, NumberType::FixedU128, Operations::Average), dec(3 * ONE));
}

#[test]
fn only_values_of_another_kind_reduce_to_zero() {
    let values = vec![dec(5), dec(6)];
    assert_eq!(aggregate(&values, NumberType::U128, Operations::Average), whole(0));
    assert_eq!(aggregate(&values, NumberType::U128, Operations::Sum), whole(0));
}

#[test]
fn order_does_not_matter() {
    let a = [5u128, u128::MAX - 3, 9, 1];
    let b = [1u128, 9, u128::MAX - 3, 5];
    for op in [Operations::Sum, Operations::Average] {
        for kind in [NumberType::U128, NumberType::FixedU128] {
            assert_eq!(calc_impl(&a, kind, op), calc_impl(&b, kind, op));
        }
    }
}
