//! Laws of the Racah–Speiser fusion coefficients that
//! [`directproduct`](crate::bcd::directproduct) computes.

use vstd::prelude::*;
use crate::bcd::{
    dominant_below, dual_weight, freudenthal_mult, lists_weight, multiplicities_exact,
    multiplicities_wf, orbit_listing, orbit_sum, product_wf, rs_coefficient, rs_contribution,
    rs_decomposition, rs_listing, rs_partial, weight_wf, Irrep, Series,
};
use crate::duality::{
    flip_last, flip_ready, lemma_flip_bounded, lemma_flip_contribution, lemma_flip_involution,
    lemma_flip_weyl_image_iff, lemma_fm_flip, lemma_weyl_image_bounded,
};
use crate::weyl::{bounded, holds_vec, is_weyl_image, RANK_BOUND, WEIGHT_BOUND};

verus! {

/// The sum of the entries of `v`.
pub open spec fn sum_ints(v: Seq<int>) -> int
    decreases v.len(),
{
    if v.len() == 0 {
        0
    } else {
        sum_ints(v.drop_last()) + v.last()
    }
}

/// Removing an entry takes it out of the sum.
proof fn lemma_sum_remove(v: Seq<int>, j: int)
    requires
        0 <= j < v.len(),
    ensures
        sum_ints(v) == sum_ints(v.remove(j)) + v[j],
    decreases v.len(),
{
    if j == v.len() - 1 {
        assert(v.remove(j) =~= v.drop_last());
    } else {
        lemma_sum_remove(v.drop_last(), j);
        assert(v.remove(j).drop_last() =~= v.drop_last().remove(j));
        assert(v.remove(j).last() == v.last());
    }
}

/// Two sums over duplicate-free key lists with the same keys agree when each
/// key carries the same value in both.
proof fn lemma_sum_by_key<K>(k1: Seq<K>, v1: Seq<int>, k2: Seq<K>, v2: Seq<int>)
    requires
        k1.len() == v1.len(),
        k2.len() == v2.len(),
        k1.no_duplicates(),
        k2.no_duplicates(),
        forall|x: K| k1.contains(x) <==> k2.contains(x),
        forall|i: int, j: int|
            0 <= i < k1.len() && 0 <= j < k2.len() && k1[i] == k2[j] ==> v1[i] == v2[j],
    ensures
        sum_ints(v1) == sum_ints(v2),
    decreases k1.len(),
{
    if k1.len() == 0 {
        if k2.len() > 0 {
            assert(k2.contains(k2[0]));
        }
    } else {
        let n = k1.len() - 1;
        let x = k1[n];
        assert(k1.contains(x));
        let j = choose|j: int| 0 <= j < k2.len() && k2[j] == x;
        lemma_sum_remove(v2, j);
        let k1r = k1.drop_last();
        let v1r = v1.drop_last();
        let k2r = k2.remove(j);
        let v2r = v2.remove(j);
        assert forall|y: K| k1r.contains(y) <==> k2r.contains(y) by {
            if k1r.contains(y) {
                let i = choose|i: int| 0 <= i < k1r.len() && k1r[i] == y;
                assert(k1[i] == y);
                assert(y != x);
                assert(k1.contains(y));
                let t = choose|t: int| 0 <= t < k2.len() && k2[t] == y;
                assert(t != j);
                if t < j {
                    assert(k2r[t] == y);
                } else {
                    assert(k2r[t - 1] == y);
                }
            }
            if k2r.contains(y) {
                let t = choose|t: int| 0 <= t < k2r.len() && k2r[t] == y;
                let u = if t < j {
                    t
                } else {
                    t + 1
                };
                assert(k2[u] == y);
                assert(u != j);
                assert(y != x);
                assert(k2.contains(y));
                let i = choose|i: int| 0 <= i < k1.len() && k1[i] == y;
                assert(i != n);
                assert(k1r[i] == y);
            }
        }
        assert forall|i: int, t: int|
            0 <= i < k1r.len() && 0 <= t < k2r.len() && k1r[i] == k2r[t] implies v1r[i]
            == v2r[t] by {
            if t < j {
                assert(k2r[t] == k2[t]);
            } else {
                assert(k2r[t] == k2[t + 1]);
            }
        }
        assert(k2r.no_duplicates()) by {
            assert forall|p: int, q: int| 0 <= p < k2r.len() && 0 <= q < k2r.len() && p != q implies k2r[p]
                != k2r[q] by {
                let pp = if p < j {
                    p
                } else {
                    p + 1
                };
                let qq = if q < j {
                    q
                } else {
                    q + 1
                };
                assert(k2r[p] == k2[pp]);
                assert(k2r[q] == k2[qq]);
            }
        }
        lemma_sum_by_key(k1r, v1r, k2r, v2r);
        assert(v1.drop_last() == v1r);
    }
}

/// The contributions to `c` of the weights listed in `o`.
pub open spec fn orbit_terms(series: Series, a: Seq<i64>, o: Seq<Vec<i64>>, c: Seq<i64>) -> Seq<int> {
    Seq::new(o.len(), |j: int| rs_contribution(series, a, o[j]@, c))
}

/// The views of the weights listed in `o`.
pub open spec fn orbit_keys(o: Seq<Vec<i64>>) -> Seq<Seq<i64>> {
    Seq::new(o.len(), |j: int| o[j]@)
}

/// `orbit_sum` over a prefix is the sum of the prefix's terms.
proof fn lemma_orbit_sum_terms(series: Series, a: Seq<i64>, o: Seq<Vec<i64>>, c: Seq<i64>, j: int)
    requires
        0 <= j <= o.len(),
    ensures
        orbit_sum(series, a, o, c, j) == sum_ints(orbit_terms(series, a, o, c).take(j)),
    decreases j,
{
    if j > 0 {
        lemma_orbit_sum_terms(series, a, o, c, j - 1);
        assert(orbit_terms(series, a, o, c).take(j).drop_last() =~= orbit_terms(series, a, o, c).take(
            j - 1,
        ));
    }
}

/// The contributions of a Weyl orbit do not depend on the order in which
/// the orbit is listed.
proof fn lemma_orbit_sum_listing(
    series: Series,
    mu: Seq<i64>,
    a: Seq<i64>,
    o1: Seq<Vec<i64>>,
    o2: Seq<Vec<i64>>,
    c: Seq<i64>,
)
    requires
        orbit_listing(series, mu, o1),
        orbit_listing(series, mu, o2),
    ensures
        orbit_sum(series, a, o1, c, o1.len() as int) == orbit_sum(series, a, o2, c, o2.len() as int),
{
    lemma_orbit_sum_terms(series, a, o1, c, o1.len() as int);
    lemma_orbit_sum_terms(series, a, o2, c, o2.len() as int);
    let k1 = orbit_keys(o1);
    let k2 = orbit_keys(o2);
    let t1 = orbit_terms(series, a, o1, c);
    let t2 = orbit_terms(series, a, o2, c);
    assert(t1.take(o1.len() as int) =~= t1);
    assert(t2.take(o2.len() as int) =~= t2);
    assert forall|w: Seq<i64>| k1.contains(w) <==> k2.contains(w) by {
        if k1.contains(w) {
            let i = choose|i: int| 0 <= i < k1.len() && k1[i] == w;
            assert(o1[i]@ == w);
            assert(holds_vec(o1, w));
            assert(holds_vec(o2, w));
            let t = choose|t: int| 0 <= t < o2.len() && #[trigger] o2[t]@ == w;
            assert(k2[t] == w);
        }
        if k2.contains(w) {
            let i = choose|i: int| 0 <= i < k2.len() && k2[i] == w;
            assert(o2[i]@ == w);
            assert(holds_vec(o2, w));
            assert(holds_vec(o1, w));
            let t = choose|t: int| 0 <= t < o1.len() && #[trigger] o1[t]@ == w;
            assert(k1[t] == w);
        }
    }
    assert(k1.no_duplicates()) by {
        assert forall|p: int, q: int| 0 <= p < k1.len() && 0 <= q < k1.len() && p != q implies k1[p]
            != k1[q] by {
            if p < q {
                assert(o1[p]@ != o1[q]@);
            } else {
                assert(o1[q]@ != o1[p]@);
            }
        }
    }
    assert(k2.no_duplicates()) by {
        assert forall|p: int, q: int| 0 <= p < k2.len() && 0 <= q < k2.len() && p != q implies k2[p]
            != k2[q] by {
            if p < q {
                assert(o2[p]@ != o2[q]@);
            } else {
                assert(o2[q]@ != o2[p]@);
            }
        }
    }
    lemma_sum_by_key(k1, t1, k2, t2);
}

/// The per-weight terms `m_i · (orbit sum of ms[i])` of a listing.
pub open spec fn listing_terms(
    series: Series,
    a: Seq<i64>,
    ms: Seq<(Vec<i64>, u64)>,
    os: Seq<Seq<Vec<i64>>>,
    c: Seq<i64>,
) -> Seq<int> {
    Seq::new(
        ms.len(),
        |i: int| ms[i].1 as int * orbit_sum(series, a, os[i], c, os[i].len() as int),
    )
}

/// The dominant weights of a listing.
pub open spec fn listing_keys(ms: Seq<(Vec<i64>, u64)>) -> Seq<Seq<i64>> {
    Seq::new(ms.len(), |i: int| ms[i].0@)
}

/// `rs_partial` over a prefix is the sum of the prefix's terms.
proof fn lemma_rs_partial_terms(
    series: Series,
    a: Seq<i64>,
    ms: Seq<(Vec<i64>, u64)>,
    os: Seq<Seq<Vec<i64>>>,
    c: Seq<i64>,
    n: int,
)
    requires
        0 <= n <= ms.len(),
    ensures
        rs_partial(series, a, ms, os, c, n) == sum_ints(listing_terms(series, a, ms, os, c).take(n)),
    decreases n,
{
    if n > 0 {
        lemma_rs_partial_terms(series, a, ms, os, c, n - 1);
        assert(listing_terms(series, a, ms, os, c).take(n).drop_last() =~= listing_terms(
            series,
            a,
            ms,
            os,
            c,
        ).take(n - 1));
    }
}

/// A weight is listed in an exact multiplicity table exactly when its
/// Freudenthal multiplicity is positive.
proof fn lemma_listed_iff_positive(series: Series, lam: Seq<i64>, ms: Seq<(Vec<i64>, u64)>, mu: Seq<i64>)
    requires
        multiplicities_wf(series, lam, ms),
        multiplicities_exact(series, lam, ms),
    ensures
        listing_keys(ms).contains(mu) <==> freudenthal_mult(series, lam, mu) > 0,
{
    if listing_keys(ms).contains(mu) {
        let i = choose|i: int| 0 <= i < listing_keys(ms).len() && listing_keys(ms)[i] == mu;
        assert(ms[i].0@ == mu);
        assert(ms[i].1 >= 1);
    }
    if freudenthal_mult(series, lam, mu) > 0 {
        let k = choose|k: int| 0 <= k < ms.len() && (#[trigger] ms[k]).0@ == mu;
        assert(listing_keys(ms)[k] == mu);
    }
}

/// The Racah–Speiser coefficient of `c` in `a ⊗ b` does not depend on how the
/// weights of `b` are listed: any two listings of the weights of the irrep
/// with highest weight `lam` give the same coefficient.
pub proof fn lemma_rs_coefficient_listing_independent(
    series: Series,
    lam: Seq<i64>,
    a: Seq<i64>,
    ms1: Seq<(Vec<i64>, u64)>,
    os1: Seq<Seq<Vec<i64>>>,
    ms2: Seq<(Vec<i64>, u64)>,
    os2: Seq<Seq<Vec<i64>>>,
    c: Seq<i64>,
)
    requires
        rs_listing(series, lam, ms1, os1),
        rs_listing(series, lam, ms2, os2),
    ensures
        rs_coefficient(series, a, ms1, os1, c) == rs_coefficient(series, a, ms2, os2, c),
{
    lemma_rs_partial_terms(series, a, ms1, os1, c, ms1.len() as int);
    lemma_rs_partial_terms(series, a, ms2, os2, c, ms2.len() as int);
    let k1 = listing_keys(ms1);
    let k2 = listing_keys(ms2);
    let t1 = listing_terms(series, a, ms1, os1, c);
    let t2 = listing_terms(series, a, ms2, os2, c);
    assert(t1.take(ms1.len() as int) =~= t1);
    assert(t2.take(ms2.len() as int) =~= t2);
    assert forall|mu: Seq<i64>| k1.contains(mu) <==> k2.contains(mu) by {
        lemma_listed_iff_positive(series, lam, ms1, mu);
        lemma_listed_iff_positive(series, lam, ms2, mu);
    }
    assert(k1.no_duplicates()) by {
        assert forall|p: int, q: int| 0 <= p < k1.len() && 0 <= q < k1.len() && p != q implies k1[p]
            != k1[q] by {
            if p < q {
                assert(ms1[p].0@ != ms1[q].0@);
            } else {
                assert(ms1[q].0@ != ms1[p].0@);
            }
        }
    }
    assert(k2.no_duplicates()) by {
        assert forall|p: int, q: int| 0 <= p < k2.len() && 0 <= q < k2.len() && p != q implies k2[p]
            != k2[q] by {
            if p < q {
                assert(ms2[p].0@ != ms2[q].0@);
            } else {
                assert(ms2[q].0@ != ms2[p].0@);
            }
        }
    }
    assert forall|i: int, j: int|
        0 <= i < k1.len() && 0 <= j < k2.len() && k1[i] == k2[j] implies t1[i] == t2[j] by {
        let mu = ms1[i].0@;
        assert(ms2[j].0@ == mu);
        assert(ms1[i].1 == freudenthal_mult(series, lam, mu));
        assert(ms2[j].1 == freudenthal_mult(series, lam, mu));
        assert(orbit_listing(series, mu, os1[i]));
        assert(orbit_listing(series, mu, os2[j]));
        lemma_orbit_sum_listing(series, mu, a, os1[i], os2[j], c);
    }
    lemma_sum_by_key(k1, t1, k2, t2);
}

/// Some entry of `v` is the irrep with highest weight `c`, with
/// multiplicity `n`.
pub open spec fn lists_entry(v: Seq<(Irrep, u32)>, c: Seq<i64>, n: u32) -> bool {
    exists|t: int| 0 <= t < v.len() && (#[trigger] v[t]).0.weight_spec() == c && v[t].1 == n
}

/// Each entry of `v1` is an entry of `v2` when both decompose `a ⊗ b`.
proof fn lemma_decomposition_included(
    series: Series,
    r: nat,
    lam: Seq<i64>,
    a: Seq<i64>,
    ms1: Seq<(Vec<i64>, u64)>,
    os1: Seq<Seq<Vec<i64>>>,
    v1: Seq<(Irrep, u32)>,
    ms2: Seq<(Vec<i64>, u64)>,
    os2: Seq<Seq<Vec<i64>>>,
    v2: Seq<(Irrep, u32)>,
)
    requires
        rs_listing(series, lam, ms1, os1),
        rs_listing(series, lam, ms2, os2),
        product_wf(series, r, v1),
        rs_decomposition(series, a, ms1, os1, v1),
        rs_decomposition(series, a, ms2, os2, v2),
    ensures
        forall|k: int| 0 <= k < v1.len() ==> lists_entry(v2, (#[trigger] v1[k]).0.weight_spec(), v1[k].1),
{
    assert forall|k: int| 0 <= k < v1.len() implies lists_entry(
        v2,
        (#[trigger] v1[k]).0.weight_spec(),
        v1[k].1,
    ) by {
        let c = v1[k].0.weight_spec();
        lemma_rs_coefficient_listing_independent(series, lam, a, ms1, os1, ms2, os2, c);
        assert(v1[k].1 >= 1);
        assert(rs_coefficient(series, a, ms2, os2, c) > 0);
        assert(lists_weight(v2, c));
        let t = choose|t: int| 0 <= t < v2.len() && (#[trigger] v2[t]).0.weight_spec() == c;
        assert(v2[t].1 == rs_coefficient(series, a, ms2, os2, c));
    }
}

/// A tensor-product decomposition is determined by its factors: two lists
/// that each meet [`rs_decomposition`] for `a` and some listing of the weights
/// of `b` hold the same irreps with the same multiplicities.
pub proof fn lemma_decomposition_determined(
    series: Series,
    r: nat,
    lam: Seq<i64>,
    a: Seq<i64>,
    ms1: Seq<(Vec<i64>, u64)>,
    os1: Seq<Seq<Vec<i64>>>,
    v1: Seq<(Irrep, u32)>,
    ms2: Seq<(Vec<i64>, u64)>,
    os2: Seq<Seq<Vec<i64>>>,
    v2: Seq<(Irrep, u32)>,
)
    requires
        rs_listing(series, lam, ms1, os1),
        rs_listing(series, lam, ms2, os2),
        product_wf(series, r, v1),
        product_wf(series, r, v2),
        rs_decomposition(series, a, ms1, os1, v1),
        rs_decomposition(series, a, ms2, os2, v2),
    ensures
        forall|k: int| 0 <= k < v1.len() ==> lists_entry(v2, (#[trigger] v1[k]).0.weight_spec(), v1[k].1),
        forall|t: int| 0 <= t < v2.len() ==> lists_entry(v1, (#[trigger] v2[t]).0.weight_spec(), v2[t].1),
{
    lemma_decomposition_included(series, r, lam, a, ms1, os1, v1, ms2, os2, v2);
    lemma_decomposition_included(series, r, lam, a, ms2, os2, v2, ms1, os1, v1);
}

/// The flips of the weights listed in `o`.
pub open spec fn flipped_orbit_keys(o: Seq<Vec<i64>>) -> Seq<Seq<i64>> {
    Seq::new(o.len(), |j: int| flip_last(o[j]@))
}

/// The flips of the dominant weights of a listing.
pub open spec fn flipped_listing_keys(ms: Seq<(Vec<i64>, u64)>) -> Seq<Seq<i64>> {
    Seq::new(ms.len(), |i: int| flip_last(ms[i].0@))
}

/// Flipping is one-to-one on vectors whose last coordinate is not
/// `i64::MIN`.
proof fn lemma_flip_injective(u: Seq<i64>, v: Seq<i64>)
    requires
        u.len() >= 1,
        v.len() >= 1,
        u[u.len() - 1] > i64::MIN,
        v[v.len() - 1] > i64::MIN,
        flip_last(u) == flip_last(v),
    ensures
        u == v,
{
    lemma_flip_involution(u);
    lemma_flip_involution(v);
}

/// The contributions of the orbit of `σμ` to `σc` in `σa ⊗ ·` are those of
/// the orbit of `μ` to `c` in `a ⊗ ·` (`D`).
proof fn lemma_orbit_sum_flip(
    mu: Seq<i64>,
    a: Seq<i64>,
    c: Seq<i64>,
    o1: Seq<Vec<i64>>,
    o2: Seq<Vec<i64>>,
)
    requires
        1 <= mu.len() <= RANK_BOUND,
        a.len() == mu.len(),
        c.len() == mu.len(),
        bounded(mu, WEIGHT_BOUND as int),
        bounded(a, WEIGHT_BOUND as int),
        bounded(c, i64::MAX as int),
        orbit_listing(Series::D, mu, o1),
        orbit_listing(Series::D, flip_last(mu), o2),
    ensures
        orbit_sum(Series::D, a, o1, c, o1.len() as int) == orbit_sum(
            Series::D,
            flip_last(a),
            o2,
            flip_last(c),
            o2.len() as int,
        ),
{
    let fmu = flip_last(mu);
    lemma_flip_bounded(mu, WEIGHT_BOUND as int);
    lemma_flip_involution(mu);
    lemma_orbit_sum_terms(Series::D, a, o1, c, o1.len() as int);
    lemma_orbit_sum_terms(Series::D, flip_last(a), o2, flip_last(c), o2.len() as int);
    let k1 = orbit_keys(o1);
    let k2 = flipped_orbit_keys(o2);
    let t1 = orbit_terms(Series::D, a, o1, c);
    let t2 = orbit_terms(Series::D, flip_last(a), o2, flip_last(c));
    assert(t1.take(o1.len() as int) =~= t1);
    assert(t2.take(o2.len() as int) =~= t2);
    // Every listed weight lies in the box of its orbit.
    assert forall|j: int| 0 <= j < o1.len() implies (#[trigger] o1[j])@.len() == mu.len() && bounded(
        o1[j]@,
        WEIGHT_BOUND as int,
    ) by {
        assert(holds_vec(o1, o1[j]@));
        lemma_weyl_image_bounded(mu, o1[j]@, WEIGHT_BOUND as int);
    }
    assert forall|j: int| 0 <= j < o2.len() implies (#[trigger] o2[j])@.len() == mu.len() && bounded(
        o2[j]@,
        WEIGHT_BOUND as int,
    ) by {
        assert(holds_vec(o2, o2[j]@));
        lemma_weyl_image_bounded(fmu, o2[j]@, WEIGHT_BOUND as int);
    }
    assert(k1.no_duplicates()) by {
        assert forall|p: int, q: int| 0 <= p < k1.len() && 0 <= q < k1.len() && p != q implies k1[p]
            != k1[q] by {
            if p < q {
                assert(o1[p]@ != o1[q]@);
            } else {
                assert(o1[q]@ != o1[p]@);
            }
        }
    }
    assert(k2.no_duplicates()) by {
        assert forall|p: int, q: int| 0 <= p < k2.len() && 0 <= q < k2.len() && p != q implies k2[p]
            != k2[q] by {
            if p < q {
                assert(o2[p]@ != o2[q]@);
            } else {
                assert(o2[q]@ != o2[p]@);
            }
            if k2[p] == k2[q] {
                lemma_flip_injective(o2[p]@, o2[q]@);
            }
        }
    }
    assert forall|w: Seq<i64>| k1.contains(w) <==> k2.contains(w) by {
        if k1.contains(w) {
            let i = choose|i: int| 0 <= i < k1.len() && k1[i] == w;
            assert(o1[i]@ == w);
            assert(holds_vec(o1, w));
            assert(is_weyl_image(Series::D, mu, w));
            lemma_flip_involution(w);
            lemma_flip_bounded(w, WEIGHT_BOUND as int);
            lemma_flip_weyl_image_iff(mu, flip_last(w));
            assert(is_weyl_image(Series::D, fmu, flip_last(w)));
            assert(holds_vec(o2, flip_last(w)));
            let t = choose|t: int| 0 <= t < o2.len() && #[trigger] o2[t]@ == flip_last(w);
            assert(k2[t] == w);
        }
        if k2.contains(w) {
            let t = choose|t: int| 0 <= t < k2.len() && k2[t] == w;
            let v = o2[t]@;
            assert(w == flip_last(v));
            assert(holds_vec(o2, v));
            assert(is_weyl_image(Series::D, fmu, v));
            lemma_flip_involution(v);
            lemma_flip_weyl_image_iff(mu, v);
            assert(is_weyl_image(Series::D, mu, w));
            assert(holds_vec(o1, w));
            let i = choose|i: int| 0 <= i < o1.len() && #[trigger] o1[i]@ == w;
            assert(k1[i] == w);
        }
    }
    assert forall|i: int, j: int|
        0 <= i < k1.len() && 0 <= j < k2.len() && k1[i] == k2[j] implies t1[i] == t2[j] by {
        let w = o1[i]@;
        let v = o2[j]@;
        lemma_flip_involution(v);
        assert(flip_last(w) == v);
        lemma_flip_contribution(a, w, c);
    }
    lemma_sum_by_key(k1, t1, k2, t2);
}

/// Dual twist: the coefficient of `c̄` in `ā ⊗ b̄` is the coefficient of `c`
/// in `a ⊗ b` (`N^{c̄}_{āb̄} = N^c_{ab}`), for any listings of the weights of
/// `b` and of `b̄`.
pub proof fn lemma_dual_twist(
    series: Series,
    a: Seq<i64>,
    lam: Seq<i64>,
    c: Seq<i64>,
    ms1: Seq<(Vec<i64>, u64)>,
    os1: Seq<Seq<Vec<i64>>>,
    ms2: Seq<(Vec<i64>, u64)>,
    os2: Seq<Seq<Vec<i64>>>,
)
    requires
        weight_wf(series, a),
        weight_wf(series, lam),
        a.len() == lam.len() <= RANK_BOUND,
        c.len() == a.len(),
        bounded(a, WEIGHT_BOUND as int),
        bounded(lam, WEIGHT_BOUND as int),
        bounded(c, i64::MAX as int),
        rs_listing(series, lam, ms1, os1),
        rs_listing(series, dual_weight(series, lam), ms2, os2),
    ensures
        rs_coefficient(series, dual_weight(series, a), ms2, os2, dual_weight(series, c))
            == rs_coefficient(series, a, ms1, os1, c),
{
    let r = lam.len() as int;
    if !(series == Series::D && r % 2 == 1) {
        lemma_rs_coefficient_listing_independent(series, lam, a, ms2, os2, ms1, os1, c);
    } else {
        let fa = flip_last(a);
        let fl = flip_last(lam);
        let fc = flip_last(c);
        assert(dual_weight(series, a) == fa);
        assert(dual_weight(series, lam) == fl);
        assert(dual_weight(series, c) == fc);
        assert(flip_ready(lam));
        lemma_flip_involution(lam);
        assert(fl[0] == lam[0]);
        lemma_rs_partial_terms(series, a, ms1, os1, c, ms1.len() as int);
        lemma_rs_partial_terms(series, fa, ms2, os2, fc, ms2.len() as int);
        let k1 = listing_keys(ms1);
        let k2 = flipped_listing_keys(ms2);
        let t1 = listing_terms(series, a, ms1, os1, c);
        let t2 = listing_terms(series, fa, ms2, os2, fc);
        assert(t1.take(ms1.len() as int) =~= t1);
        assert(t2.take(ms2.len() as int) =~= t2);
        // The listed dominant weights lie in the box of the highest weight.
        assert forall|i: int| 0 <= i < ms1.len() implies (#[trigger] ms1[i]).0@.len() == r && bounded(
            ms1[i].0@,
            WEIGHT_BOUND as int,
        ) by {
            assert(dominant_below(series, lam, lam[0] as int, ms1[i].0@));
        }
        assert forall|j: int| 0 <= j < ms2.len() implies (#[trigger] ms2[j]).0@.len() == r && bounded(
            ms2[j].0@,
            WEIGHT_BOUND as int,
        ) by {
            assert(dominant_below(series, fl, fl[0] as int, ms2[j].0@));
        }
        assert(k1.no_duplicates()) by {
            assert forall|p: int, q: int| 0 <= p < k1.len() && 0 <= q < k1.len() && p != q implies k1[p]
                != k1[q] by {
                if p < q {
                    assert(ms1[p].0@ != ms1[q].0@);
                } else {
                    assert(ms1[q].0@ != ms1[p].0@);
                }
            }
        }
        assert(k2.no_duplicates()) by {
            assert forall|p: int, q: int| 0 <= p < k2.len() && 0 <= q < k2.len() && p != q implies k2[p]
                != k2[q] by {
                if p < q {
                    assert(ms2[p].0@ != ms2[q].0@);
                } else {
                    assert(ms2[q].0@ != ms2[p].0@);
                }
                if k2[p] == k2[q] {
                    lemma_flip_injective(ms2[p].0@, ms2[q].0@);
                }
            }
        }
        assert forall|mu: Seq<i64>| k1.contains(mu) <==> k2.contains(mu) by {
            lemma_listed_iff_positive(series, lam, ms1, mu);
            if k1.contains(mu) {
                let i = choose|i: int| 0 <= i < k1.len() && k1[i] == mu;
                assert(ms1[i].0@ == mu);
                lemma_fm_flip(lam, mu);
                lemma_listed_iff_positive(series, fl, ms2, flip_last(mu));
                let j = choose|j: int| 0 <= j < listing_keys(ms2).len() && listing_keys(ms2)[j] == flip_last(mu);
                assert(ms2[j].0@ == flip_last(mu));
                lemma_flip_involution(mu);
                assert(k2[j] == mu);
            }
            if k2.contains(mu) {
                let j = choose|j: int| 0 <= j < k2.len() && k2[j] == mu;
                let nu = ms2[j].0@;
                assert(mu == flip_last(nu));
                lemma_flip_involution(nu);
                lemma_flip_bounded(nu, WEIGHT_BOUND as int);
                lemma_fm_flip(lam, mu);
                assert(listing_keys(ms2)[j] == nu);
                lemma_listed_iff_positive(series, fl, ms2, nu);
            }
        }
        assert forall|i: int, j: int|
            0 <= i < k1.len() && 0 <= j < k2.len() && k1[i] == k2[j] implies t1[i] == t2[j] by {
            let mu = ms1[i].0@;
            let nu = ms2[j].0@;
            lemma_flip_involution(nu);
            assert(flip_last(mu) == nu);
            lemma_fm_flip(lam, mu);
            assert(ms1[i].1 == freudenthal_mult(series, lam, mu));
            assert(ms2[j].1 == freudenthal_mult(series, fl, nu));
            assert(orbit_listing(series, mu, os1[i]));
            assert(orbit_listing(series, nu, os2[j]));
            lemma_orbit_sum_flip(mu, a, c, os1[i], os2[j]);
        }
        lemma_sum_by_key(k1, t1, k2, t2);
    }
}

} // verus!
