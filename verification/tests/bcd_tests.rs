use num_bigint::BigInt;
use racah::bcd::{directproduct, BcdError, Irrep, Series};
use rand::{Rng, SeedableRng};
use std::collections::BTreeMap;
use racah::weyl::weyl_orbit;

fn irr(series: Series, dynkin: &[i64]) -> Irrep {
    Irrep::from_dynkin(series, dynkin).unwrap()
}

/// The multiplicity of the dominant weight `w`, if it is one.
fn mult_of(table: &[(Vec<i64>, u64)], w: &[i64]) -> Option<u64> {
    table.iter().find(|(k, _)| k.as_slice() == w).map(|(_, m)| *m)
}

fn decomp(a: &Irrep, b: &Irrep) -> Vec<(Vec<i64>, u32)> {
    let mut v: Vec<(Vec<i64>, u32)> = directproduct(a, b)
        .unwrap()
        .into_iter()
        .map(|(c, n)| (c.dynkin(), n))
        .collect();
    v.sort();
    v
}

#[test]
fn dynkin_partition_round_trip() {
    for (series, d) in [
        (Series::B, vec![1, 0]),
        (Series::B, vec![2, 2, 4]),
        (Series::C, vec![1, 0, 1]),
        (Series::C, vec![3, 1]),
        (Series::D, vec![1, 0, 0, 0]),
        (Series::D, vec![0, 1, 1]),
        (Series::D, vec![2, 1, 1, 1]),
    ] {
        let s = irr(series, &d);
        assert_eq!(s.dynkin(), d, "round trip {series:?} {d:?}");
        assert_eq!(s.rank(), d.len());
    }
}

#[test]
fn partition_is_nonincreasing_and_dominant() {
    assert_eq!(irr(Series::B, &[1, 0, 0]).partition(), &[1, 0, 0]);
    assert_eq!(irr(Series::C, &[1, 0]).partition(), &[1, 0]);
    assert_eq!(irr(Series::C, &[2, 0]).partition(), &[2, 0]);
    let p = irr(Series::D, &[0, 2, 0]).partition().to_vec();
    let q = irr(Series::D, &[0, 0, 2]).partition().to_vec();
    assert_eq!(p, vec![1, 1, -1]);
    assert_eq!(q, vec![1, 1, 1]);
}

#[test]
fn excluded_low_ranks_are_typed_errors_with_redirection() {
    assert!(matches!(
        Irrep::from_dynkin(Series::B, &[2]),
        Err(BcdError::ExcludedRank {
            series: Series::B,
            rank: 1,
            redirect
        }) if redirect.contains("SU(2)")
    ));
    assert!(matches!(
        Irrep::from_dynkin(Series::C, &[1]),
        Err(BcdError::ExcludedRank {
            series: Series::C,
            rank: 1,
            redirect
        }) if redirect.contains("SU(2)")
    ));
    assert!(matches!(
        Irrep::from_dynkin(Series::D, &[1, 1]),
        Err(BcdError::ExcludedRank {
            series: Series::D,
            rank: 2,
            redirect
        }) if redirect.contains("SU(2)×SU(2)")
    ));
    assert!(Irrep::from_dynkin(Series::B, &[1, 0]).is_ok());
    assert!(Irrep::from_dynkin(Series::C, &[1, 0]).is_ok());
    assert!(Irrep::from_dynkin(Series::D, &[1, 0, 0]).is_ok());
}

#[test]
fn malformed_and_spinor_labels_are_typed_errors() {
    assert_eq!(
        Irrep::from_dynkin(Series::B, &[]),
        Err(BcdError::EmptyLabel)
    );
    assert!(matches!(
        Irrep::from_dynkin(Series::C, &[1, -1]),
        Err(BcdError::NegativeDynkin { .. })
    ));
    assert!(matches!(
        Irrep::from_dynkin(Series::B, &[0, 1]),
        Err(BcdError::SpinorLabel { .. })
    ));
    assert!(Irrep::from_dynkin(Series::D, &[1, 0, 0]).is_ok());
    assert!(Irrep::from_dynkin(Series::D, &[0, 1, 1]).is_ok());
    assert!(matches!(
        Irrep::from_dynkin(Series::D, &[0, 1, 2]),
        Err(BcdError::SpinorLabel { .. })
    ));
    assert!(Irrep::from_dynkin(Series::C, &[1, 1]).is_ok());
}

#[test]
fn error_payloads_carry_the_label() {
    assert_eq!(
        Irrep::from_dynkin(Series::C, &[1, -1]),
        Err(BcdError::NegativeDynkin { dynkin: vec![1, -1] })
    );
    assert_eq!(
        Irrep::from_dynkin(Series::B, &[0, 1]),
        Err(BcdError::SpinorLabel {
            series: Series::B,
            dynkin: vec![0, 1]
        })
    );
}

#[test]
fn trivial_is_the_zero_weight() {
    let t = Irrep::trivial(Series::C, 3).unwrap();
    assert_eq!(t.partition(), &[0, 0, 0]);
    assert_eq!(t.dynkin(), vec![0, 0, 0]);
    assert_eq!(t.series(), Series::C);
    assert_eq!(Irrep::trivial(Series::B, 0), Err(BcdError::EmptyLabel));
    assert!(matches!(
        Irrep::trivial(Series::D, 2),
        Err(BcdError::ExcludedRank { rank: 2, .. })
    ));
}

#[test]
fn dim_anchors_b2_so5() {
    let d = |a: &[i64]| irr(Series::B, a).dim();
    assert_eq!(d(&[0, 0]), BigInt::from(1));
    assert_eq!(d(&[1, 0]), BigInt::from(5));
    assert_eq!(d(&[0, 2]), BigInt::from(10));
    assert_eq!(d(&[2, 0]), BigInt::from(14));
    assert_eq!(d(&[1, 2]), BigInt::from(35));
    assert_eq!(d(&[2, 2]), BigInt::from(81));
}

#[test]
fn dim_anchors_c2_sp4() {
    let d = |a: &[i64]| irr(Series::C, a).dim();
    assert_eq!(d(&[0, 0]), BigInt::from(1));
    assert_eq!(d(&[1, 0]), BigInt::from(4));
    assert_eq!(d(&[0, 1]), BigInt::from(5));
    assert_eq!(d(&[2, 0]), BigInt::from(10));
    assert_eq!(d(&[1, 1]), BigInt::from(16));
}

#[test]
fn dim_anchors_d_series() {
    assert_eq!(irr(Series::D, &[1, 0, 0, 0]).dim(), BigInt::from(8));
    assert_eq!(irr(Series::D, &[0, 1, 0, 0]).dim(), BigInt::from(28));
    assert_eq!(irr(Series::D, &[2, 0, 0, 0]).dim(), BigInt::from(35));
    assert_eq!(irr(Series::D, &[1, 0, 0]).dim(), BigInt::from(6));
    assert_eq!(irr(Series::D, &[0, 1, 1]).dim(), BigInt::from(15));
    assert_eq!(irr(Series::D, &[2, 0, 0]).dim(), BigInt::from(20));
}

#[test]
fn dual_is_involution_and_preserves_dim() {
    for (series, d) in [
        (Series::B, vec![1, 2]),
        (Series::B, vec![2, 0, 2]),
        (Series::C, vec![1, 1]),
        (Series::C, vec![2, 0, 1]),
        (Series::D, vec![1, 0, 0]),
        (Series::D, vec![1, 1, 3]),
        (Series::D, vec![1, 0, 1, 1]),
    ] {
        let s = irr(series, &d);
        assert_eq!(s.dual().dual(), s, "involution {series:?} {d:?}");
        assert_eq!(s.dim(), s.dual().dim(), "dim {series:?} {d:?}");
    }
}

#[test]
fn weight_multiplicities_sum_to_dim() {
    for (series, d) in [
        (Series::B, vec![1, 0]),
        (Series::B, vec![2, 2]),
        (Series::C, vec![1, 0]),
        (Series::C, vec![2, 0]),
        (Series::D, vec![1, 0, 0]),
        (Series::D, vec![0, 1, 1]),
        (Series::D, vec![1, 0, 0, 0]),
    ] {
        let s = irr(series, &d);
        let total: u64 = s
            .weight_multiplicities()
            .unwrap()
            .iter()
            .map(|(mu, m)| m * weyl_orbit(series, mu).len() as u64)
            .sum();
        assert_eq!(BigInt::from(total), s.dim(), "weight count {series:?} {d:?}");
    }
}

fn dim_sum_rule(a: &Irrep, b: &Irrep) {
    let lhs = a.dim() * b.dim();
    let rhs: BigInt = directproduct(a, b)
        .unwrap()
        .into_iter()
        .map(|(c, n)| c.dim() * BigInt::from(n))
        .sum();
    assert_eq!(lhs, rhs, "dim-sum rule {:?} ⊗ {:?}", a.dynkin(), b.dynkin());
}

#[test]
fn products_obey_the_dimension_sum_rule() {
    for (series, x, y) in [
        (Series::B, vec![1, 0], vec![0, 2]),
        (Series::C, vec![1, 0], vec![1, 1]),
        (Series::C, vec![2, 0, 0], vec![0, 1, 0]),
        (Series::D, vec![0, 1, 1], vec![0, 2, 0]),
        (Series::D, vec![1, 0, 0, 0], vec![0, 0, 1, 1]),
    ] {
        dim_sum_rule(&irr(series, &x), &irr(series, &y));
    }
}

#[test]
fn dual_is_an_involution() {
    for (series, d) in [
        (Series::B, vec![1, 2]),
        (Series::B, vec![2, 0, 2]),
        (Series::C, vec![1, 1]),
        (Series::C, vec![2, 0, 1]),
        (Series::D, vec![1, 0, 0]),
        (Series::D, vec![1, 1, 3]),
        (Series::D, vec![1, 0, 1, 1]),
    ] {
        let s = irr(series, &d);
        assert_eq!(s.dual().dual(), s, "involution {series:?} {d:?}");
    }
}

#[test]
fn dual_bc_and_d_even_self_dual() {
    for (series, d) in [
        (Series::B, vec![2, 4]),
        (Series::C, vec![1, 3]),
        (Series::D, vec![1, 1, 0, 2]),
    ] {
        let s = irr(series, &d);
        assert_eq!(s.dual(), s, "self-dual {series:?} {d:?}");
    }
}

#[test]
fn dual_d_odd_swaps_last_two_dynkin() {
    let s = irr(Series::D, &[0, 1, 3]);
    assert_eq!(s.dual().dynkin(), vec![0, 3, 1]);
    assert_eq!(irr(Series::D, &[1, 0, 0]).dual().dynkin(), vec![1, 0, 0]);
    assert_ne!(irr(Series::D, &[0, 2, 0]), irr(Series::D, &[0, 0, 2]));
    assert_eq!(
        irr(Series::D, &[0, 2, 0]).dual(),
        irr(Series::D, &[0, 0, 2])
    );
}

#[test]
fn frobenius_schur_by_series() {
    for d in [vec![0, 0], vec![1, 0], vec![2, 2], vec![1, 2]] {
        assert_eq!(irr(Series::B, &d).frobenius_schur(), 1, "B {d:?}");
    }
    assert_eq!(irr(Series::C, &[1, 0]).frobenius_schur(), -1);
    assert_eq!(irr(Series::C, &[2, 0]).frobenius_schur(), 1);
    assert_eq!(irr(Series::C, &[0, 1]).frobenius_schur(), 1);
    assert_eq!(irr(Series::C, &[1, 0, 0]).frobenius_schur(), -1);
    assert_eq!(irr(Series::C, &[0, 0, 1]).frobenius_schur(), -1);
    assert_eq!(irr(Series::D, &[1, 0, 0, 0]).frobenius_schur(), 1);
    assert_eq!(irr(Series::D, &[0, 2, 0]).frobenius_schur(), 0);
    assert_eq!(irr(Series::D, &[1, 0, 0]).frobenius_schur(), 1);
}

#[test]
fn adjoint_has_rank_zero_weight() {
    let s = irr(Series::B, &[0, 2]);
    let table = s.weight_multiplicities().unwrap();
    assert_eq!(mult_of(&table, &[0, 0]), Some(2));
}

#[test]
fn weight_table_starts_with_highest_weight() {
    let s = irr(Series::C, &[2, 0]);
    let table = s.weight_multiplicities().unwrap();
    assert_eq!(table[0], (vec![2, 0], 1));
    // Sp(4) adjoint (dim 10): dominant weights (2,0), (1,1), (0,0) with
    // multiplicities 1, 1, 2.
    assert_eq!(mult_of(&table, &[1, 1]), Some(1));
    assert_eq!(mult_of(&table, &[0, 0]), Some(2));
    assert_eq!(table.len(), 3);
}

#[test]
fn so5_vector_squared() {
    let v = irr(Series::B, &[1, 0]);
    let got = decomp(&v, &v);
    assert_eq!(got, vec![(vec![0, 0], 1), (vec![0, 2], 1), (vec![2, 0], 1)]);
}

#[test]
fn sp4_fundamental_squared() {
    let v = irr(Series::C, &[1, 0]);
    let got = decomp(&v, &v);
    assert_eq!(got, vec![(vec![0, 0], 1), (vec![0, 1], 1), (vec![2, 0], 1)]);
}

#[test]
fn so8_vector_squared() {
    let v = irr(Series::D, &[1, 0, 0, 0]);
    let got = decomp(&v, &v);
    assert_eq!(
        got,
        vec![
            (vec![0, 0, 0, 0], 1),
            (vec![0, 1, 0, 0], 1),
            (vec![2, 0, 0, 0], 1),
        ]
    );
}

#[test]
fn so6_vector_squared() {
    let v = irr(Series::D, &[1, 0, 0]);
    let got = decomp(&v, &v);
    assert_eq!(
        got,
        vec![(vec![0, 0, 0], 1), (vec![0, 1, 1], 1), (vec![2, 0, 0], 1)]
    );
}

#[test]
fn product_is_symmetric_up_to_order() {
    let a = irr(Series::C, &[1, 0]);
    let b = irr(Series::C, &[0, 1]);
    assert_eq!(decomp(&a, &b), decomp(&b, &a));
}

#[test]
fn group_mismatch_is_typed_error() {
    let b2 = irr(Series::B, &[1, 0]);
    let c2 = irr(Series::C, &[1, 0]);
    let b3 = irr(Series::B, &[1, 0, 0]);
    assert!(matches!(
        directproduct(&b2, &c2),
        Err(BcdError::GroupMismatch { .. })
    ));
    assert!(matches!(
        directproduct(&b2, &b3),
        Err(BcdError::GroupMismatch { .. })
    ));
    assert_eq!(
        directproduct(&b2, &b3),
        Err(BcdError::GroupMismatch {
            a: (Series::B, 2),
            b: (Series::B, 3)
        })
    );
}

#[test]
fn weyl_orbit_is_the_signed_permutations() {
    let mut b = weyl_orbit(Series::B, &[1, 0]);
    b.sort();
    assert_eq!(b, vec![vec![-1, 0], vec![0, -1], vec![0, 1], vec![1, 0]]);
    // D: an even number of sign reversals only.
    let mut d = weyl_orbit(Series::D, &[1, 1, 1]);
    d.sort();
    assert_eq!(
        d,
        vec![vec![-1, -1, 1], vec![-1, 1, -1], vec![1, -1, -1], vec![1, 1, 1]]
    );
    // A zero coordinate absorbs the parity: every sign pattern is reached.
    assert_eq!(weyl_orbit(Series::D, &[2, 1, 0]).len(), 24);
    assert_eq!(weyl_orbit(Series::C, &[2, 1]).len(), 8);
}

fn product_symmetry(a: &Irrep, b: &Irrep) {
    assert_eq!(
        decomp(a, b),
        decomp(b, a),
        "N^c_ab == N^c_ba for {:?}, {:?}",
        a.dynkin(),
        b.dynkin()
    );
}

fn dual_twist(a: &Irrep, b: &Irrep) {
    // N^c_ab == N^{c̄}_{ā b̄}.
    let dp = directproduct(a, b).unwrap();
    let dpd: BTreeMap<Irrep, u32> = directproduct(&a.dual(), &b.dual())
        .unwrap()
        .into_iter()
        .collect();
    let twisted: BTreeMap<Irrep, u32> = dp.into_iter().map(|(c, n)| (c.dual(), n)).collect();
    assert_eq!(
        dpd,
        twisted,
        "dual twist {:?}, {:?}",
        a.dynkin(),
        b.dynkin()
    );
}

#[test]
fn randomized_property_sweep() {
    let mut rng = rand_chacha::ChaCha8Rng::seed_from_u64(0x0BC0_DE19_5150_4E37);
    // Keep labels small so weight systems (hence Freudenthal + orbits) stay
    // cheap — this is a property check, not a large-irrep stress test.
    let max_label = |r: usize| -> i64 {
        match r {
            2 => 3,
            3 => 2,
            _ => 1,
        }
    };
    for series in [Series::B, Series::C, Series::D] {
        let min_r = series.min_rank();
        for r in min_r..=4usize {
            let hi = max_label(r);
            let rand_irrep = |rng: &mut rand_chacha::ChaCha8Rng| -> Irrep {
                loop {
                    let d: Vec<i64> = (0..r).map(|_| rng.gen_range(0..=hi)).collect();
                    if let Ok(s) = Irrep::from_dynkin(series, &d) {
                        return s; // reject spinor labels by resampling
                    }
                }
            };
            for _ in 0..30 {
                let a = rand_irrep(&mut rng);
                let b = rand_irrep(&mut rng);
                dim_sum_rule(&a, &b);
                product_symmetry(&a, &b);
                dual_twist(&a, &b);
                assert_eq!(a.dual().dual(), a);
            }
        }
    }
}

#[test]
fn dual_twist_on_so6_and_so10() {
    // Odd-rank D: the dual swaps the last two Dynkin labels.
    for (x, y) in [
        (vec![0, 2, 0], vec![1, 0, 0]),
        (vec![0, 2, 0], vec![0, 2, 0]),
        (vec![1, 2, 0], vec![0, 1, 1]),
    ] {
        dual_twist(&irr(Series::D, &x), &irr(Series::D, &y));
    }
    dual_twist(&irr(Series::D, &[0, 0, 0, 2, 0]), &irr(Series::D, &[1, 0, 0, 0, 0]));
}

#[test]
fn dual_weight_multiplicities_are_flipped() {
    // D_3: the multiplicity of μ̄ in λ̄ is that of μ in λ.
    let a = irr(Series::D, &[0, 2, 0]);
    let m = a.weight_multiplicities().unwrap();
    let md = a.dual().weight_multiplicities().unwrap();
    assert_eq!(m.len(), md.len());
    for (w, n) in &m {
        let mut f = w.clone();
        let last = f.len() - 1;
        f[last] = -f[last];
        assert_eq!(mult_of(&md, &f), Some(*n));
    }
}

#[test]
fn label_beyond_i64_is_an_overflow_error() {
    // C: λ₁ = a₁ + a₂ = i64::MAX + 1 does not fit.
    assert!(matches!(
        Irrep::from_dynkin(Series::C, &[i64::MAX, 1]),
        Err(BcdError::ArithmeticOverflow)
    ));
    // D: a₂ + a₃ overflows.
    assert!(matches!(
        Irrep::from_dynkin(Series::D, &[0, i64::MAX, 1]),
        Err(BcdError::ArithmeticOverflow)
    ));
    // The largest C label that fits is accepted.
    assert!(Irrep::from_dynkin(Series::C, &[i64::MAX - 1, 1]).is_ok());
}

#[test]
fn weights_beyond_the_box_report_overflow() {
    let big = irr(Series::C, &[0, 1 << 25]);
    let small = irr(Series::C, &[1, 0]);
    assert!(big.weight_multiplicities().is_none());
    assert!(matches!(directproduct(&big, &small), Err(BcdError::ArithmeticOverflow)));
    assert!(matches!(directproduct(&small, &big), Err(BcdError::ArithmeticOverflow)));
}

#[test]
fn dim_of_a_label_beyond_the_weight_box() {
    // Sp(4) with Dynkin label (a, b): dim = (a+1)(b+1)(a+b+2)(a+2b+3)/6.
    let a: i64 = 1 << 40;
    let x = Irrep::from_dynkin(Series::C, &[a, 0]).unwrap();
    let big = |v: i64| BigInt::from(v);
    let expected = big(a + 1) * big(1) * big(a + 2) * big(a + 3) / big(6);
    assert_eq!(x.dim(), expected);
    // The dual has the same dimension.
    assert_eq!(x.dual().dim(), expected);
}
