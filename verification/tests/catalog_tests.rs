use racah::bcd::{Irrep, Series};
use racah::catalog::irreps_below;

fn irr(series: Series, dynkin: &[i64]) -> Irrep {
    Irrep::from_dynkin(series, dynkin).unwrap()
}

fn defining(series: Series, r: usize) -> Irrep {
    let mut d = vec![0i64; r];
    d[0] = 1;
    irr(series, &d)
}

#[test]
fn enumerated_irrep_equals_from_dynkin() {
    // The bounded-dim enumeration must produce the same Irrep value the sweep
    // does (via from_dynkin), or store lookups would miss.
    let c = irr(Series::C, &[2, 0]);
    let below = irreps_below(Series::C, 2, &c);
    // The defining rep (1,0) is below (2,0) and must be present, byte-identical.
    assert!(below.contains(&defining(Series::C, 2)));
    assert!(below.contains(&Irrep::trivial(Series::C, 2).unwrap()));
}

#[test]
fn irreps_below_sp4_adjoint_are_sorted_by_dimension() {
    // Below (2,0) (box count 4, dim 10): the trivial (box 0), the defining
    // (1,0) (box 2, dim 4) and (0,1) (box 4, dim 5 < 10).
    let c = irr(Series::C, &[2, 0]);
    let below = irreps_below(Series::C, 2, &c);
    let labels: Vec<Vec<i64>> = below.iter().map(|x| x.dynkin()).collect();
    assert_eq!(labels, vec![vec![0, 0], vec![1, 0], vec![0, 1]]);
}

#[test]
fn irreps_below_the_trivial_irrep_is_empty() {
    let c = Irrep::trivial(Series::B, 3).unwrap();
    assert!(irreps_below(Series::B, 3, &c).is_empty());
}

#[test]
fn irreps_below_include_both_chiralities_in_d3() {
    // so(6): (0,2,0) and (0,0,2) have partitions (1,1,-1) and (1,1,1), box
    // count 6, below c = (2,1,1) with partition (3,1,0) and box count 8.
    let c = irr(Series::D, &[2, 1, 1]);
    let below = irreps_below(Series::D, 3, &c);
    assert!(below.contains(&irr(Series::D, &[0, 2, 0])));
    assert!(below.contains(&irr(Series::D, &[0, 0, 2])));
    assert!(!below.contains(&c));
    for pair in below.windows(2) {
        assert!(pair[0].dim() <= pair[1].dim());
    }
}
