//! Reducing the numbers recorded under a key to one.

use vstd::prelude::*;
use vstd::arithmetic::div_mod::lemma_div_multiples_vanish_quotient;
use crate::fixed::{fixed_checked_div, fixed_from_integer, fixed_saturating_add, saturated};
use crate::value::{Fixed, NumberType, Operations, PrimitiveOracleType, FIXED_DIV};

verus! {

/// The sum of `numbers`.
pub open spec fn total(numbers: Seq<u128>) -> int
    decreases numbers.len(),
{
    if numbers.len() == 0 {
        0
    } else {
        total(numbers.drop_last()) + numbers.last()
    }
}

/// What `numbers` reduce to under `op`: their sum, which stops at the largest
/// `u128`, or that sum divided by how many they are, rounded down. The average
/// of no numbers is zero.
pub open spec fn reduced(numbers: Seq<u128>, op: Operations) -> u128 {
    match op {
        Operations::Sum => saturated(total(numbers)),
        Operations::Average => if numbers.len() == 0 {
            0
        } else {
            (saturated(total(numbers)) / (numbers.len() as u128)) as u128
        },
    }
}

/// The numbers carried by those of `values` whose representation is `kind`,
/// in their order.
pub open spec fn numbers_of(values: Seq<PrimitiveOracleType>, kind: NumberType) -> Seq<u128>
    decreases values.len(),
{
    if values.len() == 0 {
        Seq::empty()
    } else if values.last().kind() == kind {
        numbers_of(values.drop_last(), kind).push(values.last().raw())
    } else {
        numbers_of(values.drop_last(), kind)
    }
}

/// The one value that `values` reduce to for a key of representation `kind`
/// and operation `op`.
pub open spec fn aggregated(values: Seq<PrimitiveOracleType>, kind: NumberType, op: Operations) -> PrimitiveOracleType {
    PrimitiveOracleType::of(kind, reduced(numbers_of(values, kind), op))
}

/// What one value adds to the numbers of representation `kind`: how many,
/// and how much.
pub open spec fn share(value: PrimitiveOracleType, kind: NumberType) -> (nat, int) {
    if value.kind() == kind {
        (1, value.raw() as int)
    } else {
        (0, 0)
    }
}

/// The sum of `numbers`, stopping at the largest `u128`, added up as values of
/// representation `number_type`.
fn saturating_total(numbers: &[u128], number_type: NumberType) -> (sum: u128)
    ensures
        sum == saturated(total(numbers@)),
{
    let mut sum: u128 = 0;
    let mut i: usize = 0;
    while i < numbers.len()
        invariant
            i <= numbers.len(),
            sum == saturated(total(numbers@.take(i as int))),
        decreases numbers.len() - i,
    {
        proof {
            lemma_total_nonnegative(numbers@.take(i as int));
            lemma_total_push(numbers@.take(i as int), numbers@[i as int]);
            assert(numbers@.take(i as int + 1) =~= numbers@.take(i as int).push(numbers@[i as int]));
        }
        sum = match number_type {
            NumberType::U128 => sum.saturating_add(numbers[i]),
            NumberType::FixedU128 => fixed_saturating_add(
                Fixed::from_inner(sum),
                Fixed::from_inner(numbers[i]),
            ).into_inner(),
        };
        i = i + 1;
    }
    assert(numbers@.take(numbers@.len() as int) =~= numbers@);
    sum
}

/// Reduces `numbers`, the numbers carried by values of representation
/// `number_type`, under `op`.
///
/// The result does not depend on the order of `numbers`, and the average of no
/// numbers is zero.
pub fn calc_impl(numbers: &[u128], number_type: NumberType, op: Operations) -> (r: u128)
    ensures
        r == reduced(numbers@, op),
{
    match op {
        Operations::Sum => saturating_total(numbers, number_type),
        Operations::Average => {
            if numbers.len() == 0 {
                0
            } else {
                let sum: u128 = saturating_total(numbers, number_type);
                let len: usize = numbers.len();
                match number_type {
                    NumberType::U128 => match sum.checked_div(len as u128) {
                        Some(q) => q,
                        None => 0,
                    },
                    NumberType::FixedU128 => {
                        let n = fixed_from_integer(len as u128);
                        proof {
                            assert(len * FIXED_DIV <= u128::MAX) by (nonlinear_arith)
                                requires
                                    len <= 0xffff_ffff_ffff_ffff,
                                    FIXED_DIV == 1_000_000_000_000_000_000,
                            ;
                            assert(0 < len * FIXED_DIV) by (nonlinear_arith)
                                requires
                                    0 < len,
                                    FIXED_DIV == 1_000_000_000_000_000_000,
                            ;
                            lemma_div_multiples_vanish_quotient(
                                FIXED_DIV as int,
                                sum as int,
                                len as int,
                            );
                            assert(sum * FIXED_DIV == FIXED_DIV * sum) by (nonlinear_arith);
                            assert(len * FIXED_DIV == FIXED_DIV * len) by (nonlinear_arith);
                        }
                        match fixed_checked_div(Fixed::from_inner(sum), n) {
                            Some(q) => q.into_inner(),
                            None => 0,
                        }
                    },
                }
            }
        },
    }
}

/// Reduces the numbers of `values` that have the representation
/// `number_type` and hands the result back in that representation; the other
/// values are left out.
pub fn aggregate(values: &Vec<PrimitiveOracleType>, number_type: NumberType, op: Operations) -> (r:
    PrimitiveOracleType)
    ensures
        r == aggregated(values@, number_type, op),
{
    let mut numbers: Vec<u128> = Vec::new();
    let mut i: usize = 0;
    while i < values.len()
        invariant
            i <= values.len(),
            numbers@ == numbers_of(values@.take(i as int), number_type),
        decreases values.len() - i,
    {
        proof {
            assert(values@.take(i as int + 1).drop_last() =~= values@.take(i as int));
        }
        let v = values[i];
        if v.number_type() == number_type {
            numbers.push(v.into_raw());
        }
        i = i + 1;
    }
    assert(values@.take(values@.len() as int) =~= values@);
    PrimitiveOracleType::from_raw(number_type, calc_impl(numbers.as_slice(), number_type, op))
}

/// A sum is never negative.
pub proof fn lemma_total_nonnegative(numbers: Seq<u128>)
    ensures
        total(numbers) >= 0,
    decreases numbers.len(),
{
    if numbers.len() > 0 {
        lemma_total_nonnegative(numbers.drop_last());
    }
}

/// The sum of a sequence extended by one number.
pub proof fn lemma_total_push(numbers: Seq<u128>, x: u128)
    ensures
        total(numbers.push(x)) == total(numbers) + x,
{
    assert(numbers.push(x).drop_last() =~= numbers);
}

/// The sum of two sequences put together.
pub proof fn lemma_total_concat(a: Seq<u128>, b: Seq<u128>)
    ensures
        total(a + b) == total(a) + total(b),
    decreases b.len(),
{
    if b.len() == 0 {
        assert(a + b =~= a);
    } else {
        assert((a + b).drop_last() =~= a + b.drop_last());
        lemma_total_concat(a, b.drop_last());
    }
}

/// The sum of a sequence is the sum without one of its numbers, and that
/// number.
pub proof fn lemma_total_remove(numbers: Seq<u128>, i: int)
    requires
        0 <= i < numbers.len(),
    ensures
        total(numbers) == total(numbers.remove(i)) + numbers[i],
    decreases numbers.len(),
{
    if i == numbers.len() - 1 {
        assert(numbers.remove(i) =~= numbers.drop_last());
    } else {
        assert(numbers.remove(i).drop_last() =~= numbers.drop_last().remove(i));
        assert(numbers.remove(i).last() == numbers.last());
        lemma_total_remove(numbers.drop_last(), i);
    }
}

/// The numbers of two sequences of values put together.
pub proof fn lemma_numbers_of_concat(
    a: Seq<PrimitiveOracleType>,
    b: Seq<PrimitiveOracleType>,
    kind: NumberType,
)
    ensures
        numbers_of(a + b, kind) == numbers_of(a, kind) + numbers_of(b, kind),
    decreases b.len(),
{
    if b.len() == 0 {
        assert(a + b =~= a);
        assert(numbers_of(a, kind) + numbers_of(b, kind) =~= numbers_of(a, kind));
    } else {
        assert((a + b).drop_last() =~= a + b.drop_last());
        lemma_numbers_of_concat(a, b.drop_last(), kind);
        if b.last().kind() == kind {
            assert((numbers_of(a, kind) + numbers_of(b.drop_last(), kind)).push(b.last().raw())
                =~= numbers_of(a, kind) + numbers_of(b.drop_last(), kind).push(b.last().raw()));
        }
    }
}

/// The numbers of a sequence of values are those without one of its values,
/// and the share of that value.
pub proof fn lemma_numbers_of_remove(values: Seq<PrimitiveOracleType>, i: int, kind: NumberType)
    requires
        0 <= i < values.len(),
    ensures
        numbers_of(values, kind).len() == numbers_of(values.remove(i), kind).len() + share(
            values[i],
            kind,
        ).0,
        total(numbers_of(values, kind)) == total(numbers_of(values.remove(i), kind)) + share(
            values[i],
            kind,
        ).1,
    decreases values.len(),
{
    if i == values.len() - 1 {
        assert(values.remove(i) =~= values.drop_last());
        if values.last().kind() == kind {
            lemma_total_push(numbers_of(values.drop_last(), kind), values.last().raw());
        }
    } else {
        assert(values.remove(i).drop_last() =~= values.drop_last().remove(i));
        assert(values.remove(i).last() == values.last());
        lemma_numbers_of_remove(values.drop_last(), i, kind);
        if values.last().kind() == kind {
            lemma_total_push(numbers_of(values.drop_last(), kind), values.last().raw());
            lemma_total_push(
                numbers_of(values.remove(i).drop_last(), kind),
                values.last().raw(),
            );
        }
    }
}

/// A value held `n` times counts `n` times under its own representation and
/// not at all under the other.
pub proof fn lemma_repeated(n: nat, value: PrimitiveOracleType, kind: NumberType)
    ensures
        numbers_of(Seq::new(n, |i: int| value), kind).len() == (if value.kind() == kind {
            n
        } else {
            0
        }),
        total(numbers_of(Seq::new(n, |i: int| value), kind)) == (if value.kind() == kind {
            n * value.raw()
        } else {
            0
        }),
    decreases n,
{
    let s = Seq::new(n, |i: int| value);
    if n > 0 {
        let rest = Seq::new((n - 1) as nat, |i: int| value);
        assert(s.drop_last() =~= rest);
        lemma_repeated((n - 1) as nat, value, kind);
        if value.kind() == kind {
            assert(numbers_of(rest, kind).push(value.raw()).drop_last() =~= numbers_of(rest, kind));
            assert(n * value.raw() == (n - 1) * value.raw() + value.raw()) by (nonlinear_arith);
        }
    }
}

/// The sum of two numbers stops at the largest `u128`.
pub proof fn lemma_sum_of_two(a: u128, b: u128)
    ensures
        reduced(seq![a, b], Operations::Sum) == saturated(a + b),
{
    let s = seq![a, b];
    assert(s.drop_last() =~= seq![a]);
    assert(seq![a].drop_last() =~= Seq::<u128>::empty());
    assert(total(Seq::<u128>::empty()) == 0);
    assert(total(seq![a]) == a);
    assert(total(s) == a + b);
}

/// A sum that has reached the largest `u128` stays there whatever is added.
pub proof fn lemma_sum_stays_saturated(numbers: Seq<u128>, x: u128)
    requires
        reduced(numbers, Operations::Sum) == u128::MAX,
    ensures
        reduced(numbers.push(x), Operations::Sum) == u128::MAX,
{
    lemma_total_nonnegative(numbers);
    lemma_total_push(numbers, x);
}

/// The average of no numbers is zero.
pub proof fn lemma_average_of_none()
    ensures
        reduced(Seq::<u128>::empty(), Operations::Average) == 0,
{
}

/// With nothing to reduce the result is zero in the key's representation,
/// whatever the operation.
pub proof fn lemma_aggregate_of_none(kind: NumberType, op: Operations)
    ensures
        aggregated(Seq::empty(), kind, op) == PrimitiveOracleType::of(kind, 0),
{
    assert(total(Seq::<u128>::empty()) == 0);
}

/// The same numbers in another order reduce to the same.
pub proof fn lemma_order_free(a: Seq<u128>, b: Seq<u128>, op: Operations)
    requires
        a.to_multiset() == b.to_multiset(),
    ensures
        a.len() == b.len(),
        total(a) == total(b),
        reduced(a, op) == reduced(b, op),
    decreases a.len(),
{
    a.to_multiset_ensures();
    b.to_multiset_ensures();
    if a.len() > 0 {
        let x = a.last();
        assert(a[a.len() - 1] == x);
        assert(a.contains(x));
        assert(a.to_multiset().count(x) > 0);
        assert(b.to_multiset().count(x) > 0);
        assert(b.contains(x));
        let j = b.index_of(x);
        assert(a.drop_last() =~= a.remove(a.len() - 1));
        lemma_order_free(a.drop_last(), b.remove(j), op);
        lemma_total_remove(b, j);
    }
}

/// The same values in another order reduce to the same: the result of
/// settling a key does not depend on the order in which the histories are
/// gone through.
pub proof fn lemma_aggregate_order_free(
    a: Seq<PrimitiveOracleType>,
    b: Seq<PrimitiveOracleType>,
    kind: NumberType,
    op: Operations,
)
    requires
        a.to_multiset() == b.to_multiset(),
    ensures
        numbers_of(a, kind).len() == numbers_of(b, kind).len(),
        total(numbers_of(a, kind)) == total(numbers_of(b, kind)),
        aggregated(a, kind, op) == aggregated(b, kind, op),
    decreases a.len(),
{
    a.to_multiset_ensures();
    b.to_multiset_ensures();
    if a.len() > 0 {
        let x = a.last();
        assert(a[a.len() - 1] == x);
        assert(a.contains(x));
        assert(a.to_multiset().count(x) > 0);
        assert(b.to_multiset().count(x) > 0);
        assert(b.contains(x));
        let j = b.index_of(x);
        assert(a.drop_last() =~= a.remove(a.len() - 1));
        lemma_aggregate_order_free(a.drop_last(), b.remove(j), kind, op);
        lemma_numbers_of_remove(b, j, kind);
        lemma_numbers_of_remove(a, a.len() - 1, kind);
    } else {
        assert(b.len() == 0);
    }
}

} // verus!
