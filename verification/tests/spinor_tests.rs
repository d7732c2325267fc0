use num_rational::Ratio;
use racah::bcd::{check_commutators, BcdError, Series};
use racah::spinor::spinor_seeds;

#[test]
fn b_spinor_is_one_seed_on_the_full_fock_space() {
    let seeds = spinor_seeds(Series::B, 2).unwrap();
    assert_eq!(seeds.len(), 1);
    let (label, seed) = &seeds[0];
    assert_eq!(label, &vec![0, 1]);
    assert_eq!(seed.dim(), 4);
    assert_eq!(seed.rank(), 2);
    assert_eq!(seed.cartan_scale(), Ratio::new(1, 2));
    assert_eq!(seed.raising_scale2(0), Ratio::from_integer(1));
    assert_eq!(seed.raising_scale2(1), Ratio::new(1, 2));
    // States (n1 n2) in descending order: 11, 10, 01, 00.
    // Sz[0] measures mode 2, Sz[1] measures mode 1.
    assert_eq!(seed.cartan()[0], vec![1, -1, 1, -1]);
    assert_eq!(seed.cartan()[1], vec![1, 1, -1, -1]);
    // Sp[0] = c†_1 c_2 takes 01 (col 2) to 10 (row 1).
    assert_eq!(seed.raising()[0], vec![(1, 2, 1)]);
    // Sp[1] = c†_2 takes 10 (col 1) to 11 (row 0) with sign (-1)^{n1} = -1,
    // and 00 (col 3) to 01 (row 2) with sign +1.
    assert_eq!(seed.raising()[1], vec![(0, 1, -1), (2, 3, 1)]);
    assert!(check_commutators(seed).is_ok());
}

#[test]
fn d_half_spinors_come_in_ascending_label_order() {
    let seeds = spinor_seeds(Series::D, 3).unwrap();
    assert_eq!(seeds.len(), 2);
    assert_eq!(seeds[0].0, vec![0, 0, 1]);
    assert_eq!(seeds[1].0, vec![0, 1, 0]);
    assert!(seeds[0].0 < seeds[1].0);
    for (_, seed) in &seeds {
        assert_eq!(seed.dim(), 4);
        assert_eq!(seed.cartan_scale(), Ratio::new(1, 2));
        for i in 0..3 {
            assert_eq!(seed.raising_scale2(i), Ratio::from_integer(1));
        }
        assert!(check_commutators(seed).is_ok());
    }
}

#[test]
fn c_series_has_no_spinor_seed() {
    assert!(spinor_seeds(Series::C, 3).unwrap().is_empty());
}

#[test]
fn spinor_seeds_reject_excluded_low_ranks() {
    assert!(matches!(
        spinor_seeds(Series::B, 1),
        Err(BcdError::ExcludedRank { series: Series::B, rank: 1, .. })
    ));
    assert!(matches!(
        spinor_seeds(Series::D, 2),
        Err(BcdError::ExcludedRank { series: Series::D, rank: 2, .. })
    ));
}

#[test]
fn spinor_seeds_pass_the_commutator_check_across_ranks() {
    for r in 2..=6 {
        for (_, seed) in spinor_seeds(Series::B, r).unwrap() {
            assert_eq!(seed.dim(), 1 << r);
            assert!(check_commutators(&seed).is_ok(), "B_{r}");
        }
    }
    for r in 3..=7 {
        for (_, seed) in spinor_seeds(Series::D, r).unwrap() {
            assert_eq!(seed.dim(), 1 << (r - 1));
            assert!(check_commutators(&seed).is_ok(), "D_{r}");
        }
    }
}

#[test]
fn spinor_highest_weight_is_the_first_state() {
    for (series, r) in [(Series::B, 4), (Series::D, 4), (Series::D, 5)] {
        for (_, seed) in spinor_seeds(series, r).unwrap() {
            for ops in seed.raising() {
                assert!(ops.iter().all(|&(_, col, _)| col != 0));
            }
        }
    }
}

#[test]
fn oversized_seed_is_an_overflow_error() {
    // B_11: the spinor carrier has dimension 2^11 = 2048.
    for (_, seed) in spinor_seeds(Series::B, 11).unwrap() {
        assert_eq!(seed.dim(), 2048);
        assert!(matches!(check_commutators(&seed), Err(BcdError::ArithmeticOverflow)));
    }
}
