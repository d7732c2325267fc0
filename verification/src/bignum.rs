//! Arbitrary-precision integers (`num-bigint`) and rationals over them
//! (`num-rational`), as the exact results that outgrow machine integers.
//!
//! A `BigInt` is opaque here; [`bigint_value`] names the integer it holds.
//! A `Ratio<BigInt>` holds a fraction; [`ratio_numer`] and [`ratio_denom`]
//! name its stored numerator and denominator. Each operation below states its
//! result over these names.

use vstd::prelude::*;
use num_bigint::BigInt;
use num_rational::Ratio;
use num_traits::{One, Signed, Zero};

verus! {

/// `num_bigint::BigInt`, carried through verified code as an opaque value.
#[verifier::external_type_specification]
#[verifier::external_body]
pub struct ExBigInt(num_bigint::BigInt);

/// The integer a `BigInt` holds.
pub uninterp spec fn bigint_value(b: BigInt) -> int;

/// `BigInt::from(u64)`: the big integer equal to `x`.
#[verifier::external_body]
pub(crate) fn big_from_u64(x: u64) -> (b: BigInt)
    ensures
        bigint_value(b) == x,
{
    BigInt::from(x)
}

/// `BigInt::from(u128)`: the big integer equal to `x`.
#[verifier::external_body]
pub(crate) fn big_from_u128(x: u128) -> (b: BigInt)
    ensures
        bigint_value(b) == x,
{
    BigInt::from(x)
}

/// `&BigInt * &BigInt`: the exact product.
#[verifier::external_body]
pub(crate) fn big_mul(a: &BigInt, b: &BigInt) -> (c: BigInt)
    ensures
        bigint_value(c) == bigint_value(*a) * bigint_value(*b),
{
    a * b
}

/// `BigInt::pow(&self, u32)`: `a` raised to the power `e`.
#[verifier::external_body]
pub(crate) fn big_pow(a: &BigInt, e: u32) -> (c: BigInt)
    ensures
        bigint_value(c) == vstd::arithmetic::power::pow(bigint_value(*a), e as nat),
{
    a.pow(e)
}

/// `-BigInt`: the negation.
#[verifier::external_body]
pub(crate) fn big_neg(a: BigInt) -> (c: BigInt)
    ensures
        bigint_value(c) == -bigint_value(a),
{
    -a
}

/// `&BigInt / &BigInt` (truncating division) of a non-negative integer by a
/// positive one: the floor of the quotient.
#[verifier::external_body]
pub(crate) fn big_div(a: &BigInt, b: &BigInt) -> (c: BigInt)
    requires
        bigint_value(*a) >= 0,
        bigint_value(*b) > 0,
    ensures
        bigint_value(c) == bigint_value(*a) / bigint_value(*b),
{
    a / b
}


/// `num_bigint::BigInt`-backed `num_rational::Ratio`, carried through
/// verified code as an opaque value.
#[verifier::external_type_specification]
#[verifier::external_body]
#[verifier::reject_recursive_types(T)]
pub struct ExRatio<T>(num_rational::Ratio<T>);

/// The stored numerator of a `Ratio<BigInt>`.
pub uninterp spec fn ratio_numer(r: Ratio<BigInt>) -> int;

/// The stored denominator of a `Ratio<BigInt>`.
pub uninterp spec fn ratio_denom(r: Ratio<BigInt>) -> int;

/// `a/b == c/d` for non-zero `b`, `d`.
pub open spec fn frac_eq(a: int, b: int, c: int, d: int) -> bool {
    a * d == c * b
}

/// Whether `r` holds a fraction with a positive denominator (every `Ratio`
/// the operations below produce does).
pub open spec fn ratio_wf(r: Ratio<BigInt>) -> bool {
    ratio_denom(r) > 0
}

/// `Ratio::new(n, d)`: the fraction `n/d` in lowest terms with a positive
/// denominator. `d` must be non-zero (`Ratio::new` panics otherwise).
#[verifier::external_body]
pub(crate) fn ratio_new(n: BigInt, d: BigInt) -> (r: Ratio<BigInt>)
    requires
        bigint_value(d) != 0,
    ensures
        ratio_wf(r),
        frac_eq(ratio_numer(r), ratio_denom(r), bigint_value(n), bigint_value(d)),
{
    Ratio::new(n, d)
}

/// `Ratio::zero()`: `0/1`.
#[verifier::external_body]
pub(crate) fn ratio_zero() -> (r: Ratio<BigInt>)
    ensures
        ratio_numer(r) == 0,
        ratio_denom(r) == 1,
{
    Ratio::zero()
}

/// `Ratio::from(BigInt)`: `x/1`.
#[verifier::external_body]
pub(crate) fn ratio_from_integer(x: BigInt) -> (r: Ratio<BigInt>)
    ensures
        ratio_numer(r) == bigint_value(x),
        ratio_denom(r) == 1,
{
    Ratio::from(x)
}

/// `&Ratio * &Ratio`: the exact product, in lowest terms.
#[verifier::external_body]
pub(crate) fn ratio_mul(a: &Ratio<BigInt>, b: &Ratio<BigInt>) -> (c: Ratio<BigInt>)
    requires
        ratio_wf(*a),
        ratio_wf(*b),
    ensures
        ratio_wf(c),
        frac_eq(
            ratio_numer(c),
            ratio_denom(c),
            ratio_numer(*a) * ratio_numer(*b),
            ratio_denom(*a) * ratio_denom(*b),
        ),
{
    a * b
}

/// `-Ratio`: the numerator negated.
#[verifier::external_body]
pub(crate) fn ratio_neg(a: Ratio<BigInt>) -> (c: Ratio<BigInt>)
    ensures
        ratio_numer(c) == -ratio_numer(a),
        ratio_denom(c) == ratio_denom(a),
{
    -a
}

/// `Ratio::clone`: the same fraction.
#[verifier::external_body]
pub(crate) fn ratio_clone(a: &Ratio<BigInt>) -> (c: Ratio<BigInt>)
    ensures
        ratio_numer(c) == ratio_numer(*a),
        ratio_denom(c) == ratio_denom(*a),
{
    a.clone()
}

/// `Zero::is_zero` for `Ratio`: whether the numerator is zero.
#[verifier::external_body]
pub(crate) fn ratio_is_zero(a: &Ratio<BigInt>) -> (z: bool)
    ensures
        z == (ratio_numer(*a) == 0),
{
    a.is_zero()
}

/// `Signed::is_negative` for `Ratio` with a positive denominator: whether the
/// numerator is negative.
#[verifier::external_body]
pub(crate) fn ratio_is_negative(a: &Ratio<BigInt>) -> (neg: bool)
    requires
        ratio_wf(*a),
    ensures
        neg == (ratio_numer(*a) < 0),
{
    a.is_negative()
}

/// `&BigInt + &BigInt`: the exact sum.
#[verifier::external_body]
pub(crate) fn big_add(a: &BigInt, b: &BigInt) -> (c: BigInt)
    ensures
        bigint_value(c) == bigint_value(*a) + bigint_value(*b),
{
    a + b
}

/// `BigInt < BigInt`: whether the first integer is the smaller.
#[verifier::external_body]
pub(crate) fn big_lt(a: &BigInt, b: &BigInt) -> (l: bool)
    ensures
        l == (bigint_value(*a) < bigint_value(*b)),
{
    a < b
}

/// `BigInt == BigInt`: whether the two integers are equal.
#[verifier::external_body]
pub(crate) fn big_eq(a: &BigInt, b: &BigInt) -> (e: bool)
    ensures
        e == (bigint_value(*a) == bigint_value(*b)),
{
    a == b
}

/// `BigInt::from(i64)`: the big integer equal to `x`.
#[verifier::external_body]
pub(crate) fn big_from_i64(x: i64) -> (b: BigInt)
    ensures
        bigint_value(b) == x,
{
    BigInt::from(x)
}

/// The stored numerator of a `Ratio<i64>`.
pub uninterp spec fn ratio64_numer(r: Ratio<i64>) -> int;

/// The stored denominator of a `Ratio<i64>`.
pub uninterp spec fn ratio64_denom(r: Ratio<i64>) -> int;

/// `Ratio::<i64>::new(n, d)`: the fraction `n/d` in lowest terms with a
/// positive denominator. `d` must be non-zero, and neither may be `i64::MIN`
/// (whose reduction would overflow).
#[verifier::external_body]
pub(crate) fn ratio64_new(n: i64, d: i64) -> (r: Ratio<i64>)
    requires
        d != 0,
        n > i64::MIN,
        d > i64::MIN,
    ensures
        ratio64_denom(r) > 0,
        frac_eq(ratio64_numer(r), ratio64_denom(r), n as int, d as int),
{
    Ratio::new(n, d)
}

/// `Ratio::<i64>::one()`: `1/1`.
#[verifier::external_body]
pub(crate) fn ratio64_one() -> (r: Ratio<i64>)
    ensures
        ratio64_numer(r) == 1,
        ratio64_denom(r) == 1,
{
    Ratio::one()
}

/// `Ratio::<i64>::numer` and `Ratio::<i64>::denom`: the stored parts.
#[verifier::external_body]
pub(crate) fn ratio64_parts(r: &Ratio<i64>) -> (p: (i64, i64))
    ensures
        p.0 == ratio64_numer(*r),
        p.1 == ratio64_denom(*r),
{
    (*r.numer(), *r.denom())
}

/// A fraction equal to a positive one, with a positive denominator, has a
/// positive numerator.
pub proof fn lemma_frac_pos(x: int, y: int, a: int, b: int)
    requires
        y > 0,
        b > 0,
        a > 0,
        x * b == a * y,
    ensures
        x > 0,
{
    assert(x > 0) by (nonlinear_arith)
        requires
            y > 0,
            b > 0,
            a > 0,
            x * b == a * y,
    ;
}


/// Fractions equal to a common one (with a non-zero denominator) are equal.
pub proof fn lemma_frac_trans(a: int, b: int, c: int, d: int, e: int, f: int)
    requires
        d != 0,
        frac_eq(a, b, c, d),
        frac_eq(c, d, e, f),
    ensures
        frac_eq(a, b, e, f),
{
    assert((a * f - e * b) * d == 0) by (nonlinear_arith)
        requires
            a * d == c * b,
            c * f == e * d,
    ;
    assert(a * f - e * b == 0) by (nonlinear_arith)
        requires
            (a * f - e * b) * d == 0,
            d != 0,
    ;
}

/// Equal fractions with positive denominators have numerators of one sign.
pub proof fn lemma_frac_sign(a: int, b: int, c: int, d: int)
    requires
        b > 0,
        d > 0,
        frac_eq(a, b, c, d),
    ensures
        (a > 0) == (c > 0),
        (a < 0) == (c < 0),
        (a == 0) == (c == 0),
{
    assert((a > 0) == (c > 0) && (a < 0) == (c < 0)) by (nonlinear_arith)
        requires
            b > 0,
            d > 0,
            a * d == c * b,
    ;
}

} // verus!
