//! Arithmetic on [`Fixed`], carried out by `sp_runtime::FixedU128`.

use vstd::prelude::*;
use crate::value::{Fixed, FIXED_DIV};

verus! {

/// `n` if it fits in a `u128`, else the largest `u128`; `n` is not negative.
pub open spec fn saturated(n: int) -> u128 {
    if n > u128::MAX {
        u128::MAX
    } else {
        n as u128
    }
}

/// Trusted: `Saturating::saturating_add` of `sp_runtime::FixedU128`, which
/// adds the two inner values and stops at the largest one.
#[verifier::external_body]
pub(crate) fn fixed_saturating_add(a: Fixed, b: Fixed) -> (r: Fixed)
    ensures
        r.inner == saturated(a.inner + b.inner),
{
    let x = sp_runtime::FixedU128::from_inner(a.inner);
    let y = sp_runtime::FixedU128::from_inner(b.inner);
    Fixed { inner: sp_runtime::traits::Saturating::saturating_add(x, y).into_inner() }
}

/// Trusted: `From<u128>` of `sp_runtime::FixedU128`, the decimal number equal
/// to the integer `n`: its inner value is `n * 10^18`, or the largest one
/// where that does not fit.
#[verifier::external_body]
pub(crate) fn fixed_from_integer(n: u128) -> (r: Fixed)
    ensures
        r.inner == saturated(n * FIXED_DIV),
{
    Fixed { inner: sp_runtime::FixedU128::from(n).into_inner() }
}

/// The quotient of two decimal numbers given by their inner values: none by
/// zero; otherwise `a * 10^18 / b` rounded down, and none where that does not
/// fit in a `u128`.
pub open spec fn fixed_quotient(a: u128, b: u128) -> Option<Fixed> {
    if b == 0 || a * FIXED_DIV / (b as int) > u128::MAX {
        None
    } else {
        Some(Fixed { inner: (a * FIXED_DIV / (b as int)) as u128 })
    }
}

/// Trusted: `CheckedDiv::checked_div` of `sp_runtime::FixedU128`, which
/// multiplies the dividend's inner value by `10^18`, divides by the divisor's
/// and rounds down; it gives nothing by zero or where the quotient does not
/// fit.
#[verifier::external_body]
pub(crate) fn fixed_checked_div(a: Fixed, b: Fixed) -> (r: Option<Fixed>)
    ensures
        r == fixed_quotient(a.inner, b.inner),
{
    let x = sp_runtime::FixedU128::from_inner(a.inner);
    let y = sp_runtime::FixedU128::from_inner(b.inner);
    match sp_runtime::traits::CheckedDiv::checked_div(&x, &y) {
        Some(q) => Some(Fixed { inner: q.into_inner() }),
        None => None,
    }
}

/// Trusted: `From<(i64, i64)>` of `sp_runtime::FixedU128`, the decimal number
/// nearest below `n / d`. For `n` not negative and `d` positive its inner
/// value is `n * 10^18 / d` rounded down, which always fits.
#[verifier::external_body]
pub(crate) fn fixed_from_rational(n: i64, d: i64) -> (r: Fixed)
    requires
        0 <= n,
        0 < d,
    ensures
        r.inner == n * FIXED_DIV / (d as int),
{
    Fixed { inner: sp_runtime::FixedU128::from((n, d)).into_inner() }
}

} // verus!
