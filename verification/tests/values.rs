use oracle::ring::{RingBuffer, RING_BUF_LEN};
use oracle::value::{Fixed, Info, NumberType, Operations, PrimitiveOracleType};

fn whole(n: u128) -> PrimitiveOracleType {
    PrimitiveOracleType::U128(n)
}

#[test]
fn number_type_of_each_variant() {
    assert_eq!(whole(3).number_type(), NumberType::U128);
    assert_eq!(
        PrimitiveOracleType::FixedU128(Fixed::from_inner(3)).number_type(),
        NumberType::FixedU128
    );
}

#[test]
fn default_value_is_integer_zero() {
    assert_eq!(PrimitiveOracleType::default(), whole(0));
}

#[test]
fn zero_of_each_kind() {
    assert_eq!(PrimitiveOracleType::zero(NumberType::U128), whole(0));
    assert_eq!(
        PrimitiveOracleType::zero(NumberType::FixedU128),
        PrimitiveOracleType::FixedU128(Fixed::from_inner(0))
    );
}

#[test]
fn raw_number_round_trip() {
    let v = PrimitiveOracleType::from_raw(NumberType::FixedU128, 77);
    assert_eq!(v, PrimitiveOracleType::FixedU128(Fixed { inner: 77 }));
    assert_eq!(v.into_raw(), 77);
    assert_eq!(PrimitiveOracleType::from_raw(NumberType::U128, 5), whole(5));
    assert_eq!(Fixed::from_inner(9).into_inner(), 9);
}

#[test]
fn values_are_ordered_by_kind_then_number() {
    let dec = |n: u128| PrimitiveOracleType::FixedU128(Fixed::from_inner(n));
    assert!(whole(9) < dec(1));
    assert!(dec(0) > whole(u128::MAX));
    assert!(whole(1) < whole(2));
    assert!(dec(3) > dec(2));
    assert!(whole(5) <= whole(5));
    assert!(Operations::Average < Operations::Sum);
    assert!(NumberType::U128 < NumberType::FixedU128);
}

#[test]
fn both_orders_of_values_agree() {
    let dec = |n: u128| PrimitiveOracleType::FixedU128(Fixed::from_inner(n));
    let all = [whole(0), whole(7), whole(u128::MAX), dec(0), dec(7), dec(u128::MAX)];
    for (i, a) in all.iter().enumerate() {
        for (j, b) in all.iter().enumerate() {
            assert_eq!(a.partial_cmp(b), Some(i.cmp(&j)));
            assert_eq!(a.cmp(b), i.cmp(&j));
        }
    }
}

#[test]
fn info_accessors() {
    let info = Info::new(b"USD".to_vec(), NumberType::FixedU128, Operations::Average, 10);
    assert_eq!(info.key_str(), b"USD");
    assert_eq!(info.number_type(), NumberType::FixedU128);
    assert_eq!(info.operation(), Operations::Average);
    assert_eq!(info.schedule(), 10);
}

#[test]
fn first_value_fills_every_slot() {
    let b = RingBuffer::filled(whole(4));
    assert_eq!(b.to_vec(), vec![whole(4); RING_BUF_LEN]);
}

#[test]
fn second_value_moves_the_others_on() {
    let mut b = RingBuffer::filled(whole(1));
    b.push(whole(2));
    assert_eq!(
        b.to_vec(),
        vec![whole(2), whole(1), whole(1), whole(1), whole(1), whole(1), whole(1), whole(1)]
    );
    assert_eq!(b.get(0), whole(2));
    assert_eq!(b.get(7), whole(1));
}

// A push keeps the seven newest of the values held and drops exactly one,
// the oldest: after eight values nothing is left of the first fill.
#[test]
fn eight_values_read_back_newest_first() {
    let mut b = RingBuffer::filled(whole(100));
    for n in 101..=107 {
        b.push(whole(n));
    }
    assert_eq!(
        b.to_vec(),
        vec![whole(107), whole(106), whole(105), whole(104), whole(103), whole(102), whole(101), whole(100)]
    );
}

#[test]
fn ninth_value_evicts_the_oldest() {
    let mut b = RingBuffer::filled(whole(100));
    for n in 101..=108 {
        b.push(whole(n));
    }
    assert_eq!(
        b.to_vec(),
        vec![whole(108), whole(107), whole(106), whole(105), whole(104), whole(103), whole(102), whole(101)]
    );
    assert!(!b.to_vec().contains(&whole(100)));
    assert_eq!(b.to_vec().len(), RING_BUF_LEN);
}
