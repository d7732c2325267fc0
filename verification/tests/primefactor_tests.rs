use num_bigint::BigInt;
use num_traits::One;
use num_rational::Ratio;
use racah::primefactor::{factorial, mul_factorial, nth_prime, primefactor_powers, sum_series, Pf};

/// Direct big-integer factorial, independent of the prime-factorized path.
fn direct_factorial(n: u64) -> BigInt {
    let mut f = BigInt::one();
    for k in 2..=n {
        f *= BigInt::from(k);
    }
    f
}

#[test]
fn nth_prime_matches_known() {
    let known = [2u64, 3, 5, 7, 11, 13, 17, 19, 23, 29, 31, 37, 41, 43, 47];
    for (i, &p) in known.iter().enumerate() {
        assert_eq!(nth_prime(i), p, "prime index {i}");
    }
}

#[test]
fn primefactor_reconstructs() {
    for n in 1u64..=200 {
        let pf = Pf::from_powers(primefactor_powers(n));
        assert_eq!(pf.to_bigint(), BigInt::from(n), "factoring {n}");
    }
}

#[test]
fn factorial_exponents_vs_direct() {
    for n in 0u64..=30 {
        assert_eq!(factorial(n).to_bigint(), direct_factorial(n), "factorial({n})");
    }
    assert_eq!(factorial(10).to_bigint(), direct_factorial(10));
    assert_eq!(factorial(0).to_bigint(), BigInt::one());
    assert_eq!(factorial(1).to_bigint(), BigInt::one());
}

#[test]
fn factorial_large_still_exact() {
    assert_eq!(factorial(100).to_bigint(), direct_factorial(100));
    assert_eq!(factorial(257).to_bigint(), direct_factorial(257));
}

#[test]
fn mul_factorial_accumulates_clone_free() {
    let mut acc = Pf::one();
    mul_factorial(&mut acc, 3);
    mul_factorial(&mut acc, 5);
    mul_factorial(&mut acc, 7);
    assert_eq!(
        acc.to_bigint(),
        direct_factorial(3) * direct_factorial(5) * direct_factorial(7)
    );
    assert_eq!(factorial(12).to_bigint(), {
        let mut p = Pf::one();
        mul_factorial(&mut p, 12);
        p.to_bigint()
    });
}

#[test]
fn mul_and_divexact_roundtrip() {
    let a = factorial(12);
    let b = factorial(7);
    let mut p = a.clone();
    p.mul_assign(&b);
    assert_eq!(
        p.to_bigint(),
        direct_factorial(12) * direct_factorial(7),
        "12! * 7!"
    );
    p.divexact_assign(&b);
    assert_eq!(p.to_bigint(), a.to_bigint(), "(12! * 7!) / 7! == 12!");
}

#[test]
fn divgcd_reduces_to_coprime() {
    let mut a = factorial(9);
    let mut b = factorial(6);
    Pf::divgcd(&mut a, &mut b);
    assert_eq!(a.to_bigint(), BigInt::from(504));
    assert_eq!(b.to_bigint(), BigInt::one());
}

#[test]
fn splitsquare_roundtrips() {
    for n in 1u64..=120 {
        let a = Pf::from_powers(primefactor_powers(n));
        let (s, r) = a.splitsquare();
        let recon = s.to_bigint().pow(2) * r.to_bigint();
        assert_eq!(recon, BigInt::from(n), "splitsquare {n}");
    }
    let a = factorial(20);
    let (s, r) = a.splitsquare();
    assert_eq!(s.to_bigint().pow(2) * r.to_bigint(), direct_factorial(20));
}

#[test]
fn sign_propagates() {
    let mut a = factorial(5);
    a = a.neg();
    assert_eq!(a.to_bigint(), -direct_factorial(5));
    let b = factorial(3).neg();
    a.mul_assign(&b);
    assert_eq!(a.to_bigint(), direct_factorial(5) * direct_factorial(3));
}

#[test]
fn lcm_and_gcd_of_factorials() {
    let mut l = factorial(4);
    l.lcm_assign(&factorial(6));
    assert_eq!(l.to_bigint(), direct_factorial(6));
    let mut g = factorial(4);
    g.gcd_assign(&factorial(6));
    assert_eq!(g.to_bigint(), direct_factorial(4));
    let z = Pf::one();
    assert!(!z.is_zero());
}

#[test]
fn sum_series_matches_direct_rational() {
    // 1/3! - 1/(2!*4!) + 3!/5!.
    let terms = vec![
        (Pf::one(), factorial(3)),
        (Pf::one().neg(), {
            let mut d = factorial(2);
            d.mul_assign(&factorial(4));
            d
        }),
        (factorial(3), factorial(5)),
    ];
    let got = sum_series(terms);
    let want = Ratio::new(BigInt::one(), BigInt::from(6)) - Ratio::new(BigInt::one(), BigInt::from(48))
        + Ratio::new(BigInt::from(6), BigInt::from(120));
    assert_eq!(got, want);
}

#[test]
fn sum_series_of_nothing_is_zero() {
    assert_eq!(sum_series(Vec::new()), Ratio::from(BigInt::from(0)));
}

#[test]
fn sum_series_single_negative_term() {
    // -(5!)/(3!) = -20, a lone term whose gcd is the term itself.
    let got = sum_series(vec![(factorial(5).neg(), factorial(3))]);
    assert_eq!(got, Ratio::from(BigInt::from(-20)));
}

#[test]
fn sum_series_cancels_to_zero() {
    // 1/2! - 1/2! = 0.
    let got = sum_series(vec![(Pf::one(), factorial(2)), (Pf::one().neg(), factorial(2))]);
    assert_eq!(got, Ratio::from(BigInt::from(0)));
}
