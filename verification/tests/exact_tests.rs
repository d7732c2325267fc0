use num_bigint::BigInt;
use num_rational::Ratio;
use num_traits::{One, ToPrimitive, Zero};
use racah::exact::{factorial, SignedSqrtRational};

fn ssr(s: i64, num: i64, den: i64) -> SignedSqrtRational {
    SignedSqrtRational::from_prefactor_radical(
        Ratio::new(BigInt::from(s), BigInt::from(1)),
        Ratio::new(BigInt::from(num), BigInt::from(den)),
    )
}

/// A floating-point reading of an exact value, for loose comparisons.
fn approx(v: &SignedSqrtRational) -> f64 {
    let r = v.radicand().to_f64().unwrap().sqrt();
    f64::from(v.sign()) * r
}

#[test]
fn zero_is_canonical() {
    let z = SignedSqrtRational::zero();
    assert_eq!(z.sign(), 0);
    assert_eq!(approx(&z), 0.0);
    let also_zero =
        SignedSqrtRational::from_prefactor_radical(Ratio::zero(), Ratio::from(BigInt::from(5)));
    assert_eq!(z, also_zero);
}

#[test]
fn sign_and_signed_square() {
    let v = ssr(-1, 3, 4);
    assert_eq!(v.sign(), -1);
    assert_eq!(*v.radicand(), Ratio::new(BigInt::from(3), BigInt::from(4)));
    assert_eq!(v.signed_square(), Ratio::new(BigInt::from(-3), BigInt::from(4)));
}

#[test]
fn prefactor_folds_into_radicand() {
    let v = SignedSqrtRational::from_prefactor_radical(
        Ratio::new(BigInt::from(2), BigInt::from(3)),
        Ratio::from(BigInt::from(5)),
    );
    assert_eq!(v.sign(), 1);
    assert_eq!(*v.radicand(), Ratio::new(BigInt::from(20), BigInt::from(9)));
}

#[test]
fn product_multiplies_radicands_and_signs() {
    let a = ssr(-1, 2, 1);
    let b = ssr(1, 8, 1);
    let p = a.mul(b);
    assert_eq!(p.sign(), -1);
    assert_eq!(*p.radicand(), Ratio::from(BigInt::from(16)));
    assert!((approx(&p) - (-4.0)).abs() < 1e-12);
}

#[test]
fn scale_int_signs_and_squares() {
    let v = ssr(1, 3, 1).scale_int(-2);
    assert_eq!(v.sign(), -1);
    assert_eq!(*v.radicand(), Ratio::from(BigInt::from(12)));
}

#[test]
fn factorial_table_grows() {
    assert_eq!(factorial(0), BigInt::one());
    assert_eq!(factorial(5), BigInt::from(120));
    assert_eq!(factorial(10), BigInt::from(3_628_800));
    assert_eq!(factorial(3), BigInt::from(6));
}

#[test]
fn negative_radical_is_taken_by_magnitude() {
    let v = ssr(1, -3, 1);
    assert_eq!(v.sign(), 1);
    assert_eq!(*v.radicand(), Ratio::from(BigInt::from(3)));
}

#[test]
fn times_sqrt_int_and_negation() {
    let v = ssr(-1, 1, 2).times_sqrt_int(6);
    assert_eq!(v.sign(), -1);
    assert_eq!(*v.radicand(), Ratio::from(BigInt::from(3)));
    let w = v.neg_value();
    assert_eq!(w.sign(), 1);
    assert_eq!(w.signed_square(), Ratio::from(BigInt::from(3)));
    assert_eq!(ssr(1, 2, 1).times_sqrt_int(0), SignedSqrtRational::zero());
    assert_eq!(ssr(1, 2, 1).scale_int(0), SignedSqrtRational::zero());
}

#[test]
fn clone_keeps_the_value() {
    let v = ssr(-1, 5, 7);
    assert_eq!(v.clone(), v);
}
