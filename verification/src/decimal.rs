//! Turning a decimal literal into a value without loss.

use vstd::prelude::*;
use vstd::arithmetic::power::{lemma_pow_adds, lemma_pow_increases, lemma_pow_positive, pow};
use crate::fixed::fixed_from_rational;
use crate::value::{Fixed, NumberType, PrimitiveOracleType, FIXED_DIV};

verus! {

/// A decimal literal in parts: the number
/// `(integer + fraction / 10^fraction_length) * 10^exponent`.
#[derive(Clone, Copy, Debug, PartialEq, Eq, Structural)]
pub struct NumberValue {
    /// The digits before the point.
    pub integer: i64,
    /// The digits after the point, read as one number.
    pub fraction: u64,
    /// How many digits stand after the point, leading zeros included.
    pub fraction_length: u32,
    /// The power of ten the literal is multiplied by.
    pub exponent: i32,
}

impl NumberValue {
    pub fn new(integer: i64, fraction: u64, fraction_length: u32, exponent: i32) -> (r: Self)
        ensures
            r == (NumberValue { integer, fraction, fraction_length, exponent }),
    {
        NumberValue { integer, fraction, fraction_length, exponent }
    }

    /// `10^fraction_length`, which moves the point behind the last digit.
    pub open spec fn scale(self) -> int {
        pow(10, self.fraction_length as nat)
    }

    /// All digits of the literal read as one integer.
    pub open spec fn mantissa(self) -> int {
        self.integer * self.scale() + self.fraction
    }

    /// The power of ten that the mantissa is multiplied by.
    pub open spec fn decimal_point(self) -> int {
        self.exponent - self.fraction_length
    }

    /// The numerator of the literal written as a fraction.
    pub open spec fn numerator(self) -> int {
        if self.decimal_point() >= 0 {
            self.mantissa() * pow(10, self.decimal_point() as nat)
        } else {
            self.mantissa()
        }
    }

    /// The denominator of the literal written as a fraction, a power of ten.
    pub open spec fn denominator(self) -> int {
        if self.decimal_point() >= 0 {
            1
        } else {
            pow(10, (-self.decimal_point()) as nat)
        }
    }

    /// Whether the literal has a value as a decimal number: its mantissa
    /// fits in a signed 64-bit integer and, unless the mantissa is zero, so
    /// do its numerator and its denominator.
    pub open spec fn in_range(self) -> bool {
        &&& self.mantissa() <= i64::MAX
        &&& (self.mantissa() == 0 || (self.numerator() <= i64::MAX && self.denominator()
            <= i64::MAX))
    }
}

/// The distance of `n` from zero.
pub open spec fn abs(n: int) -> nat {
    if n >= 0 {
        n as nat
    } else {
        (-n) as nat
    }
}

/// The value a literal stands for in the representation `kind`, where it has
/// one.
///
/// A negative literal has none. As an integer, the literal stands for its
/// integer part. As a decimal number, it stands for its numerator divided by
/// its denominator, with eighteen fractional digits; it has none where
/// [`NumberValue::in_range`] fails, and where it has one nothing is lost.
pub open spec fn converted(val: NumberValue, kind: NumberType) -> Option<PrimitiveOracleType> {
    if val.integer < 0 {
        None
    } else {
        match kind {
            NumberType::U128 => Some(PrimitiveOracleType::U128(val.integer as u128)),
            NumberType::FixedU128 => if val.in_range() {
                Some(
                    PrimitiveOracleType::FixedU128(
                        Fixed { inner: (val.numerator() * FIXED_DIV / val.denominator()) as u128 },
                    ),
                )
            } else {
                None
            },
        }
    }
}

/// `10^e`, where it fits in an `i64`.
pub fn checked_pow10(e: u64) -> (r: Option<i64>)
    ensures
        r == (if pow(10, e as nat) <= i64::MAX {
            Some(pow(10, e as nat) as i64)
        } else {
            None
        }),
{
    let mut r: i64 = 1;
    let mut i: u64 = 0;
    proof {
        reveal(pow);
    }
    while i < e
        invariant
            i <= e,
            r == pow(10, i as nat),
            0 < r,
        decreases e - i,
    {
        proof {
            reveal(pow);
            assert(pow(10, (i + 1) as nat) == 10 * pow(10, i as nat));
        }
        match r.checked_mul(10) {
            Some(next) => {
                r = next;
            },
            None => {
                proof {
                    lemma_pow_increases(10, (i + 1) as nat, e as nat);
                }
                return None;
            },
        }
        i = i + 1;
    }
    Some(r)
}

impl PrimitiveOracleType {
    /// Converts a decimal literal into a value of representation
    /// `target_type`.
    ///
    /// A negative literal is refused for either representation, and so is one
    /// whose fraction cannot be built in 64-bit arithmetic.
    pub fn from_number_value(val: NumberValue, target_type: NumberType) -> (r: Option<Self>)
        ensures
            r == converted(val, target_type),
            val.integer < 0 ==> r is None,
    {
        if val.integer < 0 {
            return None;
        }
        match target_type {
            NumberType::U128 => Some(PrimitiveOracleType::U128(val.integer as u128)),
            NumberType::FixedU128 => {
                proof {
                    lemma_pow_positive(10, val.fraction_length as nat);
                    lemma_pow_positive(10, abs(val.decimal_point()));
                    lemma_mantissa(val);
                }
                let whole: i64 = if val.integer == 0 {
                    0
                } else {
                    let scale: i64 = match checked_pow10(val.fraction_length as u64) {
                        Some(s) => s,
                        None => {
                            assert(val.integer * val.scale() > i64::MAX) by (nonlinear_arith)
                                requires
                                    1 <= val.integer,
                                    val.scale() > i64::MAX,
                            ;
                            return None;
                        },
                    };
                    match val.integer.checked_mul(scale) {
                        Some(w) => w,
                        None => {
                            return None;
                        },
                    }
                };
                if val.fraction > 0x7fff_ffff_ffff_ffff {
                    return None;
                }
                let mantissa: i64 = match whole.checked_add(val.fraction as i64) {
                    Some(m) => m,
                    None => {
                        return None;
                    },
                };
                if mantissa == 0 {
                    assert(val.numerator() == 0) by (nonlinear_arith)
                        requires
                            val.mantissa() == 0,
                            val.numerator() == val.mantissa() || val.numerator() == val.mantissa()
                                * pow(10, abs(val.decimal_point())),
                    ;
                    return Some(PrimitiveOracleType::FixedU128(fixed_from_rational(0, 1)));
                }
                let decimal_point: i64 = val.exponent as i64 - val.fraction_length as i64;
                if decimal_point >= 0 {
                    let shift: i64 = match checked_pow10(decimal_point as u64) {
                        Some(s) => s,
                        None => {
                            assert(val.numerator() > i64::MAX) by (nonlinear_arith)
                                requires
                                    1 <= val.mantissa(),
                                    val.numerator() == val.mantissa() * pow(
                                        10,
                                        abs(val.decimal_point()),
                                    ),
                                    pow(10, abs(val.decimal_point())) > i64::MAX,
                            ;
                            return None;
                        },
                    };
                    assert(0 <= mantissa * shift) by (nonlinear_arith)
                        requires
                            0 <= mantissa,
                            0 < shift,
                    ;
                    let n: i64 = match mantissa.checked_mul(shift) {
                        Some(n) => n,
                        None => {
                            return None;
                        },
                    };
                    Some(PrimitiveOracleType::FixedU128(fixed_from_rational(n, 1)))
                } else {
                    let d: i64 = match checked_pow10((-decimal_point) as u64) {
                        Some(d) => d,
                        None => {
                            return None;
                        },
                    };
                    Some(PrimitiveOracleType::FixedU128(fixed_from_rational(mantissa, d)))
                }
            },
        }
    }
}

/// `10^18` is the scale of a decimal number.
pub proof fn lemma_pow10_18()
    ensures
        pow(10, 18) == FIXED_DIV,
{
    reveal_with_fuel(pow, 19);
}

/// A negative literal has no value in either representation.
pub proof fn lemma_negative_refused(val: NumberValue, kind: NumberType)
    requires
        val.integer < 0,
    ensures
        converted(val, kind) is None,
{
}

/// Conversion to an integer keeps the integer part of the literal.
pub proof fn lemma_integer_exact(val: NumberValue)
    requires
        val.integer >= 0,
    ensures
        converted(val, NumberType::U128) == Some(PrimitiveOracleType::U128(val.integer as u128)),
        val.fraction == 0 && val.fraction_length == 0 && val.exponent == 0 ==> val.numerator()
            == val.integer && val.denominator() == 1,
{
    reveal(pow);
    assert(pow(10, 0) == 1);
    assert(val.integer * 1 == val.integer);
}

/// The mantissa of a literal that is not negative is not negative, and is
/// the fraction where the integer part is zero.
pub proof fn lemma_mantissa(val: NumberValue)
    requires
        val.integer >= 0,
    ensures
        val.mantissa() >= val.fraction,
        val.integer * val.scale() >= 0,
        val.integer == 0 ==> val.mantissa() == val.fraction,
        val.numerator() >= 0,
        val.denominator() > 0,
{
    lemma_pow_positive(10, val.fraction_length as nat);
    lemma_pow_positive(10, abs(val.decimal_point()));
    assert(val.integer * val.scale() >= 0) by (nonlinear_arith)
        requires
            0 <= val.integer,
            0 < val.scale(),
    ;
    assert(val.integer == 0 ==> val.integer * val.scale() == 0) by (nonlinear_arith);
    assert(val.mantissa() * pow(10, abs(val.decimal_point())) >= 0) by (nonlinear_arith)
        requires
            0 <= val.mantissa(),
            0 < pow(10, abs(val.decimal_point())),
    ;
}

/// A literal with a mantissa other than zero that has a value as a decimal
/// number has at most eighteen digits after the point once its exponent is
/// applied, and is multiplied by at most `10^18`.
pub proof fn lemma_in_range_digits(val: NumberValue)
    requires
        val.integer >= 0,
        val.in_range(),
        val.mantissa() != 0,
    ensures
        -18 <= val.decimal_point() <= 18,
{
    lemma_mantissa(val);
    let k = abs(val.decimal_point());
    let p = pow(10, k);
    if k >= 19 {
        lemma_pow_increases(10, 19, k);
        assert(pow(10, 19) == 10_000_000_000_000_000_000int) by {
            reveal_with_fuel(pow, 20);
        }
        if val.decimal_point() >= 0 {
            assert(val.mantissa() * p >= p) by (nonlinear_arith)
                requires
                    1 <= val.mantissa(),
                    0 < p,
            ;
        }
    }
}

/// A literal with one to eighteen digits after the point, once its exponent
/// is applied, and a mantissa `m` that fits in a signed 64-bit integer has
/// the value `m / 10^k` exactly: the inner value is `m * 10^(18 - k)`.
pub proof fn lemma_decimal_fraction(val: NumberValue)
    requires
        val.integer >= 0,
        val.mantissa() <= i64::MAX,
        -18 <= val.decimal_point() < 0,
    ensures
        converted(val, NumberType::FixedU128) == Some(
            PrimitiveOracleType::FixedU128(
                Fixed {
                    inner: (val.mantissa() * pow(10, (18 + val.decimal_point()) as nat)) as u128,
                },
            ),
        ),
        0 <= val.mantissa() * pow(10, (18 + val.decimal_point()) as nat) <= u128::MAX,
{
    lemma_mantissa(val);
    let m = val.mantissa();
    let k = (-val.decimal_point()) as nat;
    let rest = (18 - k) as nat;
    let d = pow(10, k);
    let r = pow(10, rest);
    lemma_pow10_18();
    lemma_pow_adds(10, k, rest);
    lemma_pow_positive(10, k);
    lemma_pow_positive(10, rest);
    lemma_pow_increases(10, k, 18);
    assert(FIXED_DIV == d * r);
    assert(m * FIXED_DIV == (m * r) * d) by (nonlinear_arith)
        requires
            FIXED_DIV == d * r,
    ;
    assert((m * r) * d / d == m * r) by (nonlinear_arith)
        requires
            0 < d,
    ;
    assert(0 <= m * r <= m * FIXED_DIV) by (nonlinear_arith)
        requires
            0 <= m,
            0 < r,
            0 < d,
            FIXED_DIV == d * r,
    ;
    assert(m * FIXED_DIV <= u128::MAX) by (nonlinear_arith)
        requires
            0 <= m <= i64::MAX,
            FIXED_DIV == 1_000_000_000_000_000_000,
    ;
}

/// A literal without digits after the point, once its exponent is applied,
/// and a numerator `m * 10^e` that fits in a signed 64-bit integer has that
/// whole number as its value exactly: the inner value is `m * 10^e * 10^18`.
pub proof fn lemma_decimal_whole(val: NumberValue)
    requires
        val.integer >= 0,
        val.decimal_point() >= 0,
        val.mantissa() * pow(10, val.decimal_point() as nat) <= i64::MAX,
    ensures
        converted(val, NumberType::FixedU128) == Some(
            PrimitiveOracleType::FixedU128(
                Fixed {
                    inner: (val.mantissa() * pow(10, val.decimal_point() as nat) * FIXED_DIV) as u128,
                },
            ),
        ),
        0 <= val.mantissa() * pow(10, val.decimal_point() as nat) * FIXED_DIV <= u128::MAX,
{
    lemma_mantissa(val);
    let m = val.mantissa();
    let p = pow(10, val.decimal_point() as nat);
    let n = val.numerator();
    lemma_pow_positive(10, val.decimal_point() as nat);
    assert(m <= m * p) by (nonlinear_arith)
        requires
            0 <= m,
            1 <= p,
    ;
    assert(0 <= n * FIXED_DIV <= u128::MAX) by (nonlinear_arith)
        requires
            0 <= n <= i64::MAX,
            FIXED_DIV == 1_000_000_000_000_000_000,
    ;
    assert(n * FIXED_DIV / 1 == n * FIXED_DIV);
}

/// Conversion to a decimal number loses nothing: the result, read back as
/// the fraction `inner / 10^18`, equals the literal's own fraction
/// `numerator / denominator`.
pub proof fn lemma_decimal_exact(val: NumberValue, out: Fixed)
    requires
        converted(val, NumberType::FixedU128) == Some(PrimitiveOracleType::FixedU128(out)),
    ensures
        out.inner * val.denominator() == val.numerator() * FIXED_DIV,
{
    lemma_mantissa(val);
    let n = val.numerator();
    let d = val.denominator();
    if val.mantissa() == 0 {
        assert(n == 0) by (nonlinear_arith)
            requires
                val.mantissa() == 0,
                n == val.mantissa() || n == val.mantissa() * pow(10, abs(val.decimal_point())),
        ;
        assert(0 * FIXED_DIV / d == 0) by (nonlinear_arith)
            requires
                0 < d,
        ;
        assert(out.inner == 0);
        assert(out.inner * d == 0) by (nonlinear_arith)
            requires
                out.inner == 0,
        ;
    } else if val.decimal_point() >= 0 {
        lemma_decimal_whole(val);
        assert(out.inner * 1 == out.inner);
    } else {
        lemma_in_range_digits(val);
        lemma_decimal_fraction(val);
        let k = (-val.decimal_point()) as nat;
        let rest = (18 - k) as nat;
        let r = pow(10, rest);
        lemma_pow10_18();
        lemma_pow_adds(10, k, rest);
        assert(FIXED_DIV == d * r);
        assert((n * r) * d == n * FIXED_DIV) by (nonlinear_arith)
            requires
                FIXED_DIV == d * r,
        ;
    }
}

} // verus!
