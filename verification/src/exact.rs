//! Exact value type for SU(2) recoupling coefficients.
//!
//! Every Wigner 3j/6j/Clebsch-Gordan value equals `sign · sqrt(radicand)` with
//! `radicand` a non-negative rational over big integers: a triangle/dimension
//! product under a square root times a rational alternating sum. Values stay
//! in this exact form; rounding to a float happens outside the library.

use vstd::prelude::*;
use num_bigint::BigInt;
use num_rational::Ratio;
use crate::bignum::{
    lemma_frac_pos,
    big_from_i64, big_from_u64, big_mul, bigint_value, frac_eq, ratio_clone, ratio_denom,
    ratio_from_integer, ratio_is_negative, ratio_is_zero, ratio_mul, ratio_neg, ratio_numer,
    ratio_wf, ratio_zero,
};
use crate::primefactor::factorial_spec;

verus! {

/// Signed square root of a non-negative rational: the value
/// `sign · sqrt(radicand)`.
///
/// `sign` is `-1`, `0`, or `+1`; `radicand` is a non-negative fraction with a
/// positive denominator, zero exactly when `sign` is.
#[derive(Debug, PartialEq, Eq)]
pub struct SignedSqrtRational {
    sign: i8,
    radicand: Ratio<BigInt>,
}

impl Clone for SignedSqrtRational {
    fn clone(&self) -> (c: Self)
        ensures
            c.sign_spec() == self.sign_spec(),
            c.rad_num() == self.rad_num(),
            c.rad_den() == self.rad_den(),
    {
        SignedSqrtRational { sign: self.sign, radicand: ratio_clone(&self.radicand) }
    }
}

/// The sign of an integer: `-1`, `0` or `1`.
pub open spec fn sgn(x: int) -> int {
    if x < 0 {
        -1
    } else if x == 0 {
        0
    } else {
        1
    }
}

impl SignedSqrtRational {
    /// The sign.
    pub closed spec fn sign_spec(&self) -> i8 {
        self.sign
    }

    /// The numerator of the radicand.
    pub closed spec fn rad_num(&self) -> int {
        ratio_numer(self.radicand)
    }

    /// The denominator of the radicand.
    pub closed spec fn rad_den(&self) -> int {
        ratio_denom(self.radicand)
    }

    /// The representation is canonical: a sign in `{-1, 0, 1}` that is zero
    /// exactly when the non-negative radicand is.
    pub open spec fn wf(&self) -> bool {
        &&& -1 <= self.sign_spec() <= 1
        &&& self.rad_den() > 0
        &&& self.rad_num() >= 0
        &&& (self.sign_spec() == 0) == (self.rad_num() == 0)
    }

    /// Whether the value is `sgn · sqrt(n/d)` (for `d > 0`).
    pub open spec fn denotes(&self, sgn: int, n: int, d: int) -> bool {
        &&& self.sign_spec() == sgn
        &&& frac_eq(self.rad_num(), self.rad_den(), n, d)
    }

    /// The exact zero value.
    pub fn zero() -> (z: Self)
        ensures
            z.wf(),
            z.sign_spec() == 0,
            z.rad_num() == 0,
    {
        SignedSqrtRational { sign: 0, radicand: ratio_zero() }
    }

    /// `s · sqrt(d)` from a rational prefactor `s` (which carries the sign)
    /// and a rational `d` under the root.
    ///
    /// The stored form is `sign = sign(s)`, `radicand = s² · |d|` (a negative
    /// `d` is taken by its absolute value rather than panicking).
    pub fn from_prefactor_radical(s: Ratio<BigInt>, d: Ratio<BigInt>) -> (v: Self)
        requires
            ratio_wf(s),
            ratio_wf(d),
        ensures
            v.wf(),
            ratio_numer(s) == 0 || ratio_numer(d) == 0 ==> v.sign_spec() == 0,
            ratio_numer(s) != 0 && ratio_numer(d) != 0 ==> v.denotes(
                sgn(ratio_numer(s)),
                ratio_numer(s) * ratio_numer(s) * (if ratio_numer(d) < 0 {
                    -ratio_numer(d)
                } else {
                    ratio_numer(d)
                }),
                ratio_denom(s) * ratio_denom(s) * ratio_denom(d),
            ),
    {
        if ratio_is_zero(&s) || ratio_is_zero(&d) {
            return Self::zero();
        }
        let sign: i8 = if ratio_is_negative(&s) {
            -1
        } else {
            1
        };
        let d = if ratio_is_negative(&d) {
            ratio_neg(d)
        } else {
            d
        };
        let ss = ratio_mul(&s, &s);
        let radicand = ratio_mul(&ss, &d);
        proof {
            let (a, b) = (ratio_numer(s), ratio_denom(s));
            let (c, e) = (ratio_numer(d), ratio_denom(d));
            let (p, q) = (ratio_numer(ss), ratio_denom(ss));
            let (x, y) = (ratio_numer(radicand), ratio_denom(radicand));
            lemma_frac_mul_chain(a, b, c, e, p, q, x, y);
        }
        SignedSqrtRational { sign, radicand }
    }

    /// The sign: `-1`, `0`, or `+1`.
    pub fn sign(&self) -> (s: i8)
        ensures
            s == self.sign_spec(),
    {
        self.sign
    }

    /// The non-negative radicand `r` such that the value is `sign · sqrt(r)`.
    pub fn radicand(&self) -> (r: &Ratio<BigInt>)
        ensures
            ratio_numer(*r) == self.rad_num(),
            ratio_denom(*r) == self.rad_den(),
    {
        &self.radicand
    }

    /// The signed square `sign · radicand`: two coefficients agree exactly iff
    /// their signed squares are equal.
    pub fn signed_square(&self) -> (q: Ratio<BigInt>)
        requires
            self.wf(),
        ensures
            ratio_wf(q),
            frac_eq(ratio_numer(q), ratio_denom(q), self.sign_spec() * self.rad_num(), self.rad_den()),
    {
        if self.sign == 0 {
            let z = ratio_zero();
            proof {
                assert(self.rad_num() == 0);
            }
            z
        } else if self.sign == 1 {
            let q = ratio_clone(&self.radicand);
            assert(1 * self.rad_num() == self.rad_num());
            q
        } else {
            let q = ratio_neg(ratio_clone(&self.radicand));
            proof {
                let (a, b) = (self.rad_num(), self.rad_den());
                assert(self.sign_spec() == -1);
                assert((-a) * b == (-1 * a) * b) by (nonlinear_arith);
            }
            q
        }
    }

    /// Multiply by an integer `k`: `sign(k)·sign · sqrt(k² r)`.
    pub fn scale_int(self, k: i64) -> (v: Self)
        requires
            self.wf(),
        ensures
            v.wf(),
            k == 0 || self.sign_spec() == 0 ==> v.sign_spec() == 0,
            k != 0 && self.sign_spec() != 0 ==> v.denotes(
                self.sign_spec() * sgn(k as int),
                self.rad_num() * k * k,
                self.rad_den(),
            ),
    {
        if k == 0 || self.sign == 0 {
            return Self::zero();
        }
        let sign: i8 = if k < 0 {
            -self.sign
        } else {
            self.sign
        };
        let kb = big_from_i64(k);
        let k2 = big_mul(&kb, &kb);
        let f = ratio_from_integer(k2);
        let radicand = ratio_mul(&self.radicand, &f);
        proof {
            let (a, b) = (self.rad_num(), self.rad_den());
            let (x, y) = (ratio_numer(radicand), ratio_denom(radicand));
            if k < 0 {
                assert(sgn(k as int) == -1);
                assert(sign == self.sign * -1);
            } else {
                assert(sgn(k as int) == 1);
                assert(sign == self.sign * 1);
            }
            assert(frac_eq(x, y, a * (k * k), b * 1));
            assert(a * (k * k) == a * k * k) by (nonlinear_arith);
            assert(x * b == a * k * k * y) by (nonlinear_arith)
                requires
                    x * (b * 1) == a * (k * k) * y,
                    a * (k * k) == a * k * k,
            ;
            assert(a * k * k > 0) by (nonlinear_arith)
                requires
                    a > 0,
                    k != 0,
            ;
            lemma_frac_pos(x, y, a * k * k, b);
        }
        SignedSqrtRational { sign, radicand }
    }

    /// Multiply the value by `sqrt(n)` for a non-negative integer `n`
    /// (`radicand · n`, sign unchanged).
    pub fn times_sqrt_int(self, n: u64) -> (v: Self)
        requires
            self.wf(),
        ensures
            v.wf(),
            n == 0 || self.sign_spec() == 0 ==> v.sign_spec() == 0,
            n != 0 && self.sign_spec() != 0 ==> v.denotes(
                self.sign_spec() as int,
                self.rad_num() * n,
                self.rad_den(),
            ),
    {
        if n == 0 || self.sign == 0 {
            return Self::zero();
        }
        let f = ratio_from_integer(big_from_u64(n));
        let radicand = ratio_mul(&self.radicand, &f);
        proof {
            let (a, b) = (self.rad_num(), self.rad_den());
            let (x, y) = (ratio_numer(radicand), ratio_denom(radicand));
            assert(x * b == a * n * y) by (nonlinear_arith)
                requires
                    x * (b * 1) == a * n * y,
            ;
            assert(a * n > 0) by (nonlinear_arith)
                requires
                    a > 0,
                    n > 0,
            ;
            lemma_frac_pos(x, y, a * n, b);
        }
        SignedSqrtRational { sign: self.sign, radicand }
    }

    /// The negated value.
    pub fn neg_value(self) -> (v: Self)
        requires
            self.wf(),
        ensures
            v.wf(),
            v.sign_spec() == -self.sign_spec(),
            v.rad_num() == self.rad_num(),
            v.rad_den() == self.rad_den(),
    {
        let SignedSqrtRational { sign, radicand } = self;
        SignedSqrtRational { sign: -sign, radicand }
    }

    /// `(s1 sqrt(r1)) · (s2 sqrt(r2)) = (s1 s2) sqrt(r1 r2)`.
    pub fn mul(self, other: SignedSqrtRational) -> (v: Self)
        requires
            self.wf(),
            other.wf(),
        ensures
            v.wf(),
            self.sign_spec() == 0 || other.sign_spec() == 0 ==> v.sign_spec() == 0,
            self.sign_spec() != 0 && other.sign_spec() != 0 ==> v.denotes(
                self.sign_spec() * other.sign_spec(),
                self.rad_num() * other.rad_num(),
                self.rad_den() * other.rad_den(),
            ),
    {
        if self.sign == 0 || other.sign == 0 {
            return Self::zero();
        }
        let sign: i8 = if other.sign < 0 {
            -self.sign
        } else {
            self.sign
        };
        let radicand = ratio_mul(&self.radicand, &other.radicand);
        proof {
            let (a, b) = (self.rad_num(), self.rad_den());
            let (c, d) = (other.rad_num(), other.rad_den());
            assert(a * c > 0) by (nonlinear_arith)
                requires
                    a > 0,
                    c > 0,
            ;
            assert(b * d > 0) by (nonlinear_arith)
                requires
                    b > 0,
                    d > 0,
            ;
            lemma_frac_pos(ratio_numer(radicand), ratio_denom(radicand), a * c, b * d);
            assert(sign == self.sign * other.sign) by (nonlinear_arith)
                requires
                    other.sign == 1 || other.sign == -1,
                    sign == if other.sign < 0 {
                        -self.sign
                    } else {
                        self.sign as int
                    },
            ;
        }
        SignedSqrtRational { sign, radicand }
    }
}

/// `(a/b)² · (c/e)` through two exact products, with `c ≥ 0`.
proof fn lemma_frac_mul_chain(a: int, b: int, c: int, e: int, p: int, q: int, x: int, y: int)
    requires
        b > 0,
        e > 0,
        q > 0,
        y > 0,
        a != 0,
        c > 0,
        frac_eq(p, q, a * a, b * b),
        frac_eq(x, y, p * c, q * e),
    ensures
        frac_eq(x, y, a * a * c, b * b * e),
        x > 0,
{
    assert(x * (b * b * e) == a * a * c * y) by (nonlinear_arith)
        requires
            p * (b * b) == a * a * q,
            x * (q * e) == p * c * y,
            q > 0,
            b > 0,
            e > 0,
    ;
    assert(a * a * c > 0) by (nonlinear_arith)
        requires
            a != 0,
            c > 0,
    ;
    assert(b * b * e > 0) by (nonlinear_arith)
        requires
            b > 0,
            e > 0,
    ;
    lemma_frac_pos(x, y, a * a * c, b * b * e);
}

/// `n!` as a big integer.
pub fn factorial(n: u64) -> (f: BigInt)
    ensures
        bigint_value(f) == factorial_spec(n as nat),
{
    let mut f = big_from_u64(1);
    let mut k: u64 = 0;
    while k < n
        invariant
            k <= n,
            bigint_value(f) == factorial_spec(k as nat),
        decreases n - k,
    {
        k = k + 1;
        let ghost prev = bigint_value(f);
        f = big_mul(&f, &big_from_u64(k));
        proof {
            assert(factorial_spec(k as nat) == k * factorial_spec((k - 1) as nat));
            assert(prev * k == k * prev) by (nonlinear_arith);
        }
    }
    f
}

} // verus!
