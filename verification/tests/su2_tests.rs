use num_bigint::BigInt;
use num_rational::Ratio;
use num_traits::ToPrimitive;
use rand::{Rng, SeedableRng};
use rand_chacha::ChaCha8Rng;
use racah::exact::SignedSqrtRational;
use racah::su2::{
    canonical_regge_3j, canonical_regge_6j, clebsch_gordan, clebsch_gordan_checked,
    f_symbol_exact, f_symbol_exact_checked, su2_authority_fingerprint, su2_frobenius_schur_sign,
    su2_r_symbol_sign, su2_r_symbol_sign_checked, triangle_ok, wigner_3j, wigner_3j_checked,
    wigner_6j, wigner_6j_checked, AdmissibilityViolation, ReggeError, ReggePhase, Su2Error,
    Su2Fusion, Su2Irrep, SU2_AUTHORITY_FINGERPRINT,
};

fn sq(v: &SignedSqrtRational) -> Ratio<BigInt> {
    v.signed_square()
}

/// A floating-point reading of an exact value, for loose comparisons.
fn approx(v: &SignedSqrtRational) -> f64 {
    let r = v.radicand().to_f64().unwrap().sqrt();
    f64::from(v.sign()) * r
}

/// Drain a fusion from the front.
fn forward(mut it: Su2Fusion) -> Vec<u32> {
    let mut out = Vec::new();
    while let Some(s) = it.next() {
        out.push(s.dj());
    }
    out
}

/// Drain a fusion from the back.
fn backward(mut it: Su2Fusion) -> Vec<u32> {
    let mut out = Vec::new();
    while let Some(s) = it.next_back() {
        out.push(s.dj());
    }
    out
}

#[test]
fn triangle_admissibility() {
    assert!(triangle_ok(1, 1, 2)); // 1/2,1/2,1
    assert!(triangle_ok(2, 2, 2)); // 1,1,1
    assert!(!triangle_ok(1, 1, 1)); // parity fails
    assert!(!triangle_ok(2, 2, 6)); // out of range
}

#[test]
fn regge_key_orbit_invariance_small() {
    let base = canonical_regge_6j(2, 4, 4, 6, 4, 2).unwrap();
    let swap12 = canonical_regge_6j(2, 4, 4, 6, 2, 4).unwrap();
    assert_eq!(base, swap12);
    assert_ne!([2u32, 4, 4, 6, 4, 2], [2u32, 4, 4, 6, 2, 4]);
}

#[test]
fn regge_overflow_reported() {
    let big = 200_000u32;
    assert_eq!(
        canonical_regge_6j(big, big, big, big, big, big),
        Err(ReggeError::Overflow)
    );
}

#[test]
fn regge_nonadmissible_is_error_not_a_key() {
    assert_eq!(
        canonical_regge_6j(1, 1, 1, 1, 1, 1),
        Err(ReggeError::NonAdmissible)
    );
    let admissible = canonical_regge_6j(2, 2, 2, 2, 2, 2);
    assert!(admissible.is_ok());
    assert_ne!(
        canonical_regge_6j(1, 1, 1, 1, 1, 1).ok(),
        admissible.ok(),
        "non-admissible input must not share a key with an admissible one"
    );
}

/// The six column permutations times the m-negation: the 12-element
/// classical 3j orbit.
fn orbit_images(dj: [u32; 3], dm: [i32; 3]) -> Vec<([u32; 3], [i32; 3])> {
    let perms: [[usize; 3]; 6] = [
        [0, 1, 2],
        [0, 2, 1],
        [1, 0, 2],
        [1, 2, 0],
        [2, 0, 1],
        [2, 1, 0],
    ];
    let mut out = Vec::with_capacity(12);
    for p in perms {
        let pj = [dj[p[0]], dj[p[1]], dj[p[2]]];
        let pm = [dm[p[0]], dm[p[1]], dm[p[2]]];
        out.push((pj, pm));
        out.push((pj, [-pm[0], -pm[1], -pm[2]]));
    }
    out
}

#[test]
fn regge3j_even_j_phase_is_always_plus() {
    let dj = [2u32, 2, 4];
    let dm = [2i32, -2, 0];
    for (pj, pm) in orbit_images(dj, dm) {
        let (_, phase) = canonical_regge_3j(pj[0], pj[1], pj[2], pm[0], pm[1], pm[2]).unwrap();
        assert_eq!(phase, ReggePhase::Plus, "even-J phase must be Plus");
    }
}

#[test]
fn regge3j_orbit_shares_one_key() {
    // J = 3 is odd: the phase varies over the orbit, the key does not.
    let dj = [2u32, 2, 2];
    let dm = [2i32, 0, -2];
    let (key, _) = canonical_regge_3j(2, 2, 2, 2, 0, -2).unwrap();
    let mut minus = 0;
    for (pj, pm) in orbit_images(dj, dm) {
        let (k, phase) = canonical_regge_3j(pj[0], pj[1], pj[2], pm[0], pm[1], pm[2]).unwrap();
        assert_eq!(k, key);
        if phase == ReggePhase::Minus {
            minus += 1;
        }
    }
    assert!(minus > 0, "odd J must flip the phase somewhere in the orbit");
}

#[test]
fn regge3j_nonadmissible_is_error_not_a_key() {
    assert_eq!(
        canonical_regge_3j(2, 2, 2, 2, 2, 0),
        Err(ReggeError::NonAdmissible)
    );
    assert_eq!(
        canonical_regge_3j(2, 2, 2, 4, -2, -2),
        Err(ReggeError::NonAdmissible)
    );
    assert_eq!(
        canonical_regge_3j(1, 1, 1, 1, -1, 0),
        Err(ReggeError::NonAdmissible)
    );
}

#[test]
fn regge3j_overflow_reported() {
    let big = 200_000u32;
    assert_eq!(
        canonical_regge_3j(big, big, big, 0, 0, 0),
        Err(ReggeError::Overflow)
    );
}

#[test]
fn regge_triangle_inequality_is_nonadmissible_not_overflow() {
    // Parity-even but triangle-violating labels: non-admissible, not overflow.
    assert_eq!(
        canonical_regge_6j(2, 2, 8, 2, 2, 2),
        Err(ReggeError::NonAdmissible)
    );
}

#[test]
fn regge6j_components_are_the_stored_labels() {
    let key = canonical_regge_6j(2, 2, 2, 2, 2, 2).unwrap();
    let c = key.components();
    assert_eq!(c.len(), 6);
    assert_eq!(key, canonical_regge_6j(2, 2, 2, 2, 2, 2).unwrap());
}

#[test]
fn irrep_accessors_and_self_dual() {
    let s = Su2Irrep::new(3); // spin 3/2
    assert_eq!(s.dj(), 3);
    assert_eq!(s.dim(), 4); // 2j+1
    assert_eq!(s.dual(), s); // SU(2) is self-dual
    assert_eq!(Su2Irrep::new(0).dim(), 1);
}

#[test]
fn dim_does_not_overflow_at_max_label() {
    assert_eq!(Su2Irrep::new(u32::MAX).dim(), u32::MAX as u64 + 1);
}

#[test]
fn fusion_range_matches_direct_triangle_scan() {
    for dj1 in 0..=8u32 {
        for dj2 in 0..=8u32 {
            let got = forward(Su2Irrep::new(dj1).fusion(Su2Irrep::new(dj2)).unwrap());
            let want: Vec<u32> = (0..=dj1 + dj2)
                .filter(|&c| triangle_ok(dj1, dj2, c))
                .collect();
            assert_eq!(got, want, "fusion {dj1} x {dj2}");
        }
    }
}

#[test]
fn fusion_exact_size_and_double_ended() {
    let mut it = Su2Irrep::new(4).fusion(Su2Irrep::new(2)).unwrap(); // 2..=6 step 2
    assert_eq!(it.len(), 3);
    assert_eq!(it.next().map(|s| s.dj()), Some(2));
    assert_eq!(it.next_back().map(|s| s.dj()), Some(6));
    assert_eq!(it.len(), 1);
    assert_eq!(it.next().map(|s| s.dj()), Some(4));
    assert_eq!(it.len(), 0);
    assert!(it.next().is_none());
    assert!(it.next_back().is_none());

    let full = backward(Su2Irrep::new(4).fusion(Su2Irrep::new(2)).unwrap());
    assert_eq!(full, vec![6, 4, 2]);
}

#[test]
fn fusion_overflow_at_u32_boundary() {
    let a = Su2Irrep::new(u32::MAX);
    assert!(matches!(
        a.fusion(Su2Irrep::new(1)),
        Err(Su2Error::LabelOverflow {
            left: u32::MAX,
            right: 1,
        })
    ));
    assert!(Su2Irrep::new(u32::MAX - 1).fusion(Su2Irrep::new(1)).is_ok());
}

#[test]
fn fusion_full_back_drain_reaches_singlet_without_underflow() {
    let got = backward(Su2Irrep::new(2).fusion(Su2Irrep::new(2)).unwrap());
    assert_eq!(got, vec![4, 2, 0]);
}

#[test]
fn fusion_full_forward_drain_at_u32_max_without_overflow() {
    let got = forward(Su2Irrep::new(u32::MAX - 1).fusion(Su2Irrep::new(1)).unwrap());
    assert_eq!(got, vec![u32::MAX - 2, u32::MAX]);
}

#[test]
fn fusion_mixed_drain_to_singlet_without_underflow() {
    let mut it = Su2Irrep::new(2).fusion(Su2Irrep::new(2)).unwrap();
    let mut got = vec![
        it.next().unwrap().dj(),      // front: 0
        it.next_back().unwrap().dj(), // back: 4
        it.next_back().unwrap().dj(), // back: 2
    ];
    assert!(it.next().is_none());
    assert!(it.next_back().is_none());
    got.sort_unstable();
    assert_eq!(got, vec![0, 2, 4]);
}

#[test]
fn r_symbol_sign_matches_convention() {
    // (-1)^{(j1 + j2 - j3)} with doubled spins: 1/2 x 1/2 -> 0 is odd (-1),
    // 1/2 x 1/2 -> 1 is even (+1).
    assert_eq!(su2_r_symbol_sign(1, 1, 0), -1);
    assert_eq!(su2_r_symbol_sign(1, 1, 2), 1);
    assert_eq!(su2_r_symbol_sign(2, 2, 2), -1);
}

#[test]
fn r_symbol_sign_checked_rejects_inadmissible() {
    assert!(su2_r_symbol_sign_checked(1, 1, 1).is_err());
    assert_eq!(su2_r_symbol_sign_checked(1, 1, 2), Ok(1));
}

#[test]
fn frobenius_schur_sign_is_sign_of_doubled_spin() {
    assert_eq!(su2_frobenius_schur_sign(0), 1);
    assert_eq!(su2_frobenius_schur_sign(1), -1);
    assert_eq!(su2_frobenius_schur_sign(2), 1);
    assert_eq!(su2_frobenius_schur_sign(3), -1);
}

#[test]
fn fingerprint_bytes_match_the_string() {
    assert_eq!(su2_authority_fingerprint(), SU2_AUTHORITY_FINGERPRINT.as_bytes());
}

#[test]
fn six_j_known_value() {
    // {1/2 1/2 1; 1/2 1/2 1} = 1/6, so signed_square = 1/36.
    let v = wigner_6j(1, 1, 2, 1, 1, 2);
    assert_eq!(sq(&v), Ratio::new(BigInt::from(1), BigInt::from(36)));
    assert!((approx(&v) - 1.0 / 6.0).abs() < 1e-14);
}

#[test]
fn six_j_all_ones() {
    // {1 1 1; 1 1 1} = 1/6.
    let v = wigner_6j(2, 2, 2, 2, 2, 2);
    assert_eq!(sq(&v), Ratio::new(BigInt::from(1), BigInt::from(36)));
}

#[test]
fn six_j_nonadmissible_is_zero() {
    let v = wigner_6j(1, 1, 1, 1, 1, 1);
    assert_eq!(v, SignedSqrtRational::zero());
}

#[test]
fn six_j_known_negative_value() {
    // {j1 j2 0; j4 j5 j6} = (-1)^(j1+j4+j6) / sqrt((2j1+1)(2j4+1)), so
    // {1/2 1/2 0; 1/2 1/2 0} = -1/2.
    let v = wigner_6j(1, 1, 0, 1, 1, 0);
    assert_eq!(sq(&v), Ratio::new(BigInt::from(-1), BigInt::from(4)));
}

#[test]
fn three_j_known_value() {
    // (1/2 1/2 1; 1/2 -1/2 0) = +1/sqrt(6).
    let v = wigner_3j(1, 1, 2, 1, -1, 0);
    assert_eq!(sq(&v), Ratio::new(BigInt::from(1), BigInt::from(6)));
}

#[test]
fn three_j_singlet_value() {
    // (1/2 1/2 0; 1/2 -1/2 0) = +1/sqrt(2), (1/2 1/2 0; -1/2 1/2 0) = -1/sqrt(2).
    assert_eq!(sq(&wigner_3j(1, 1, 0, 1, -1, 0)), Ratio::new(BigInt::from(1), BigInt::from(2)));
    assert_eq!(sq(&wigner_3j(1, 1, 0, -1, 1, 0)), Ratio::new(BigInt::from(-1), BigInt::from(2)));
}

#[test]
fn three_j_m_sum_nonzero_is_zero() {
    let v = wigner_3j(1, 1, 2, 1, 1, 0);
    assert_eq!(v, SignedSqrtRational::zero());
}

#[test]
fn cg_known_value() {
    // <1/2 1/2, 1/2 -1/2 | 1 0> = 1/sqrt(2).
    let v = clebsch_gordan(1, 1, 1, -1, 2, 0);
    assert_eq!(sq(&v), Ratio::new(BigInt::from(1), BigInt::from(2)));
    assert!((approx(&v) - (0.5f64).sqrt()).abs() < 1e-14);
}

#[test]
fn cg_stretched_is_one() {
    // <1/2 1/2, 1/2 1/2 | 1 1> = 1.
    let v = clebsch_gordan(1, 1, 1, 1, 2, 2);
    assert_eq!(sq(&v), Ratio::from(BigInt::from(1)));
    assert!((approx(&v) - 1.0).abs() < 1e-14);
}

#[test]
fn cg_singlet_is_antisymmetric() {
    // <1/2 1/2, 1/2 -1/2 | 0 0> = 1/sqrt(2), <1/2 -1/2, 1/2 1/2 | 0 0> = -1/sqrt(2).
    assert_eq!(sq(&clebsch_gordan(1, 1, 1, -1, 0, 0)), Ratio::new(BigInt::from(1), BigInt::from(2)));
    assert_eq!(sq(&clebsch_gordan(1, -1, 1, 1, 0, 0)), Ratio::new(BigInt::from(-1), BigInt::from(2)));
}

#[test]
fn cg_extreme_projection_is_zero_not_a_panic() {
    assert_eq!(clebsch_gordan(1, 1, 1, 1, 2, i32::MIN), SignedSqrtRational::zero());
    assert!(clebsch_gordan_checked(1, 1, 1, 1, 2, i32::MIN).is_err());
}

#[test]
fn regge3j_orbit_same_key_and_phase_compensated_value() {
    let dj = [2u32, 2, 2];
    let dm = [2i32, 0, -2];
    let mut key0 = None;
    let mut rep_value: Option<SignedSqrtRational> = None;
    let mut saw_negative_phase = false;
    for (pj, pm) in orbit_images(dj, dm) {
        let (key, phase) = canonical_regge_3j(pj[0], pj[1], pj[2], pm[0], pm[1], pm[2]).unwrap();
        match key0 {
            None => key0 = Some(key),
            Some(k) => assert_eq!(k, key, "orbit image produced a different key"),
        }
        let raw = wigner_3j(pj[0], pj[1], pj[2], pm[0], pm[1], pm[2]);
        let compensated = phase.apply(raw.clone());
        match &rep_value {
            None => rep_value = Some(compensated),
            Some(rv) => assert_eq!(rv, &compensated, "phase-compensated value differs across the orbit"),
        }
        if phase == ReggePhase::Minus {
            saw_negative_phase = true;
            assert_ne!(raw, phase.apply(raw.clone()));
        }
    }
    assert!(saw_negative_phase, "J-odd orbit must exercise the Minus phase");
}

#[test]
fn f_symbol_exact_composition_identity() {
    for dj1 in 0..=4u32 {
        for dj2 in 0..=4u32 {
            for dj3 in 0..=4u32 {
                for dj4 in 0..=4u32 {
                    for dj5 in 0..=4u32 {
                        for dj6 in 0..=4u32 {
                            let f = f_symbol_exact(dj1, dj2, dj3, dj4, dj5, dj6);
                            let w = wigner_6j(dj1, dj2, dj5, dj3, dj4, dj6);
                            let dim = BigInt::from(((dj5 + 1) * (dj6 + 1)) as i64);
                            let mut expected = w.signed_square() * Ratio::from(dim);
                            let sum = (dj1 as i64) + (dj2 as i64) + (dj3 as i64) + (dj4 as i64);
                            if (sum / 2).rem_euclid(2) == 1 {
                                expected = -expected;
                            }
                            let ctx = (dj1, dj2, dj3, dj4, dj5, dj6);
                            assert_eq!(f.signed_square(), expected, "F^2 identity at {ctx:?}");
                        }
                    }
                }
            }
        }
    }
}

#[test]
fn f_symbol_exact_all_trivial_is_one() {
    assert_eq!(f_symbol_exact(0, 0, 0, 0, 0, 0).signed_square(), Ratio::from(BigInt::from(1)));
}

#[test]
fn f_symbol_exact_nonadmissible_is_zero() {
    assert_eq!(f_symbol_exact(1, 1, 1, 1, 1, 1), SignedSqrtRational::zero());
}

#[test]
fn guard_6j_triangle() {
    assert_eq!(
        wigner_6j_checked(2, 2, 20, 2, 2, 2),
        Err(Su2Error::NotAdmissible(AdmissibilityViolation::Triangle { a: 2, b: 2, c: 20 }))
    );
    assert!(matches!(
        wigner_6j_checked(2, 3, 3, 7, 2, 100),
        Err(Su2Error::NotAdmissible(AdmissibilityViolation::Triangle { .. }))
    ));
}

#[test]
fn guard_3j_projection_sum() {
    assert_eq!(
        wigner_3j_checked(2, 2, 2, 2, 2, 2),
        Err(Su2Error::NotAdmissible(AdmissibilityViolation::ProjectionSum { dm1: 2, dm2: 2, dm3: 2 }))
    );
}

#[test]
fn guard_3j_projection_out_of_range() {
    assert_eq!(
        wigner_3j_checked(2, 2, 2, 4, -2, -2),
        Err(Su2Error::NotAdmissible(AdmissibilityViolation::Projection { dj: 2, dm: 4 }))
    );
}

#[test]
fn guard_3j_projection_parity() {
    assert_eq!(
        wigner_3j_checked(2, 2, 2, 1, 1, -2),
        Err(Su2Error::NotAdmissible(AdmissibilityViolation::Projection { dj: 2, dm: 1 }))
    );
}

#[test]
fn guard_3j_triangle() {
    assert_eq!(
        wigner_3j_checked(2, 2, 8, 0, 0, 0),
        Err(Su2Error::NotAdmissible(AdmissibilityViolation::Triangle { a: 2, b: 2, c: 8 }))
    );
}

#[test]
fn guard_cg_inadmissible() {
    assert!(matches!(
        clebsch_gordan_checked(2, 2, 2, 2, 2, 0),
        Err(Su2Error::NotAdmissible(AdmissibilityViolation::ProjectionSum { .. }))
    ));
}

#[test]
fn guard_f_symbol_triangle() {
    assert!(matches!(
        f_symbol_exact_checked(1, 1, 1, 1, 1, 1),
        Err(Su2Error::NotAdmissible(AdmissibilityViolation::Triangle { .. }))
    ));
}

#[test]
fn guard_r_symbol_triangle() {
    assert_eq!(
        su2_r_symbol_sign_checked(1, 1, 1),
        Err(Su2Error::NotAdmissible(AdmissibilityViolation::Triangle { a: 1, b: 1, c: 1 }))
    );
    assert_eq!(su2_r_symbol_sign_checked(1, 1, 2), Ok(1));
}

#[test]
fn checked_value_near_u32_max_is_not_admissible_without_overflow() {
    assert!(matches!(
        wigner_6j_checked(u32::MAX, 2, 0, 2, 2, 2),
        Err(Su2Error::NotAdmissible(_))
    ));
}

#[test]
fn admissible_but_zero_6j_is_ok_not_err() {
    let v = wigner_6j_checked(2, 3, 3, 7, 6, 6).expect("admissible tuple");
    assert_eq!(v, SignedSqrtRational::zero());
    assert_eq!(wigner_6j(2, 3, 3, 7, 6, 6), SignedSqrtRational::zero());
}

#[test]
fn property_checked_equals_unchecked_when_admissible() {
    let mut rng = ChaCha8Rng::seed_from_u64(0xCA5C_ADE5_u64);
    let mut tested_6j = 0;
    let mut tested_3j = 0;
    for _ in 0..20_000 {
        let d = [(); 6].map(|_| rng.gen_range(0..=10u32));
        if let Ok(v) = wigner_6j_checked(d[0], d[1], d[2], d[3], d[4], d[5]) {
            assert_eq!(v, wigner_6j(d[0], d[1], d[2], d[3], d[4], d[5]));
            tested_6j += 1;
        }
        let dj = [(); 3].map(|_| rng.gen_range(0..=8u32));
        let dm1 = rng.gen_range(-(dj[0] as i32)..=dj[0] as i32);
        let dm2 = rng.gen_range(-(dj[1] as i32)..=dj[1] as i32);
        let dm = [dm1, dm2, -(dm1 + dm2)];
        if let Ok(v) = wigner_3j_checked(dj[0], dj[1], dj[2], dm[0], dm[1], dm[2]) {
            assert_eq!(v, wigner_3j(dj[0], dj[1], dj[2], dm[0], dm[1], dm[2]));
            tested_3j += 1;
        }
    }
    assert!(tested_6j > 100, "too few admissible 6j samples ({tested_6j})");
    assert!(tested_3j > 100, "too few admissible 3j samples ({tested_3j})");
}

#[test]
fn property_forbidden_is_zero_and_not_admissible() {
    let mut rng = ChaCha8Rng::seed_from_u64(0xBEEF);
    let mut tested_6j = 0;
    let mut tested_3j = 0;
    for _ in 0..40_000 {
        let d = [(); 6].map(|_| rng.gen_range(0..=8u32));
        match wigner_6j_checked(d[0], d[1], d[2], d[3], d[4], d[5]) {
            Err(Su2Error::NotAdmissible(_)) => {
                assert_eq!(
                    wigner_6j(d[0], d[1], d[2], d[3], d[4], d[5]),
                    SignedSqrtRational::zero(),
                    "structurally forbidden 6j must be an unchecked zero"
                );
                tested_6j += 1;
            }
            Err(Su2Error::LabelOverflow { .. }) => unreachable!("6j checked never overflows"),
            Err(Su2Error::SpinBeyondBound { .. }) => unreachable!("small spins are in bound"),
            Ok(_) => {}
        }
        let dj = [(); 3].map(|_| rng.gen_range(0..=6u32));
        let dm = [(); 3].map(|_| rng.gen_range(-6..=6i32));
        if let Err(Su2Error::NotAdmissible(_)) = wigner_3j_checked(dj[0], dj[1], dj[2], dm[0], dm[1], dm[2]) {
            assert_eq!(
                wigner_3j(dj[0], dj[1], dj[2], dm[0], dm[1], dm[2]),
                SignedSqrtRational::zero(),
                "structurally forbidden 3j must be an unchecked zero"
            );
            tested_3j += 1;
        }
    }
    assert!(tested_6j > 100, "too few forbidden 6j samples ({tested_6j})");
    assert!(tested_3j > 100, "too few forbidden 3j samples ({tested_3j})");
}

#[test]
fn six_j_value_is_invariant_under_its_symmetries() {
    // {1 2 2; 3 2 1} (doubled 2 4 4 / 6 4 2) and images under the generators.
    let base = wigner_6j(2, 4, 4, 6, 4, 2);
    assert_ne!(base, SignedSqrtRational::zero());
    // columns 1 <-> 2
    assert_eq!(wigner_6j(4, 2, 4, 4, 6, 2), base);
    // columns 2 <-> 3
    assert_eq!(wigner_6j(2, 4, 4, 6, 2, 4), base);
    // upper/lower exchange in the first two columns
    assert_eq!(wigner_6j(6, 4, 4, 2, 4, 2), base);
    // Regge: e2 = (4+4+4-2)/2 = 5, e3 = (4+4-4+2)/2 = 3, e5 = (4+2+4-4)/2 = 3,
    // e6 = (4+2-4+4)/2 = 3.
    assert_eq!(wigner_6j(2, 5, 3, 6, 3, 3), base);
    assert_eq!(
        canonical_regge_6j(2, 5, 3, 6, 3, 3).unwrap(),
        canonical_regge_6j(2, 4, 4, 6, 4, 2).unwrap()
    );
}

#[test]
fn three_j_symmetries_multiply_by_the_j_sum_parity() {
    // (1 1 1; 1 0 -1): j1 + j2 + j3 = 3 is odd, so every odd operation flips
    // the sign.
    let base = wigner_3j(2, 2, 2, 2, 0, -2);
    assert_ne!(base, SignedSqrtRational::zero());
    assert_eq!(wigner_3j(2, 2, 2, 0, 2, -2), base.clone().neg_value());
    assert_eq!(wigner_3j(2, 2, 2, 2, -2, 0), base.clone().neg_value());
    assert_eq!(wigner_3j(2, 2, 2, -2, 0, 2), base.clone().neg_value());
    // the cyclic permutation is even
    assert_eq!(wigner_3j(2, 2, 2, 0, -2, 2), base);
    // (1/2 1/2 1; 1/2 -1/2 0): j1 + j2 + j3 = 2 is even, so no sign change.
    let even = wigner_3j(1, 1, 2, 1, -1, 0);
    assert_ne!(even, SignedSqrtRational::zero());
    assert_eq!(wigner_3j(1, 1, 2, -1, 1, 0), even);
    assert_eq!(wigner_3j(1, 2, 1, 1, 0, -1), even);
}

#[test]
fn admissible_spins_beyond_the_bound_are_a_typed_error() {
    assert_eq!(
        wigner_3j_checked(300_000, 300_000, 0, 0, 0, 0),
        Err(Su2Error::SpinBeyondBound { dj: 300_000 })
    );
    assert_eq!(
        clebsch_gordan_checked(300_000, 0, 300_000, 0, 0, 0),
        Err(Su2Error::SpinBeyondBound { dj: 300_000 })
    );
    assert_eq!(
        wigner_6j_checked(300_000, 300_000, 0, 300_000, 300_000, 0),
        Err(Su2Error::SpinBeyondBound { dj: 300_000 })
    );
    assert_eq!(
        f_symbol_exact_checked(300_000, 300_000, 300_000, 300_000, 300_000, 300_000),
        Err(Su2Error::SpinBeyondBound { dj: 300_000 })
    );
    // Inadmissible labels are reported as such, whatever their size.
    assert!(matches!(
        wigner_6j_checked(2, 2, 20, 2, 2, 2),
        Err(Su2Error::NotAdmissible(_))
    ));
}

#[test]
fn one_regge_key_one_six_j_value() {
    // {1 2 3; 2 1 2} and its image under the Regge symmetry
    // {j1, s-j2, s-j3; j4, s-j5, s-j6} with 2s = d2 + d3 + d5 + d6 = 8:
    // (1, 2, 1, 2, 3, 2).
    let d = [1u32, 2, 3, 2, 1, 2];
    let e = [1u32, 2, 1, 2, 3, 2];
    let kd = canonical_regge_6j(d[0], d[1], d[2], d[3], d[4], d[5]).unwrap();
    let ke = canonical_regge_6j(e[0], e[1], e[2], e[3], e[4], e[5]).unwrap();
    assert_eq!(kd, ke);
    assert_eq!(
        wigner_6j(d[0], d[1], d[2], d[3], d[4], d[5]),
        wigner_6j(e[0], e[1], e[2], e[3], e[4], e[5])
    );
}
