//! Duality laws of the `B`, `C`, `D` irreps: what the outer automorphism of
//! `D_r` (the sign flip of the last ε-coordinate, which is the dual at odd
//! rank) preserves.

use vstd::prelude::*;
use crate::bcd::{
    casimir_spec, coeff_sum, depth_nat, depth_spec, dim_spec, dominant_below, dual_weight,
    freudenthal_known, freudenthal_mult, freudenthal_roots, freudenthal_string, half_toward_zero,
    is_dominant, rs_contribution, rs_target, shift_spec, string_bound, sub_spec, two_xi_spec,
    weight_wf, weyl_num, Series,
};
use crate::weyl::{
    abs_i64, abs_seq, bounded, count_true, dot_spec, in_positive_root_cone, index_range, is_permutation,
    is_singular, is_weyl_image, lemma_sort_desc_bounded, lemma_sort_desc_last_min,
    lemma_sorted_entries_nonneg, neg_count, pair_roots, permuted_by, positive_roots_spec,
    prefix_sum, root_vec, row_roots, signed_by, simple_coeff, sort_desc, two_rho_entry,
    two_rho_seq, weyl_dominant_spec, WEIGHT_BOUND,
};

verus! {

/// `v` with its last coordinate negated.
pub open spec fn flip_last(v: Seq<i64>) -> Seq<i64> {
    v.update(v.len() - 1, (-v[v.len() - 1]) as i64)
}

/// `Π_{α ∈ s} g(α)`.
pub open spec fn root_prod(s: Seq<Seq<i64>>, g: spec_fn(Seq<i64>) -> int) -> int
    decreases s.len(),
{
    if s.len() == 0 {
        1
    } else {
        root_prod(s.drop_last(), g) * g(s.last())
    }
}

/// Products over a concatenation multiply.
proof fn lemma_root_prod_concat(a: Seq<Seq<i64>>, b: Seq<Seq<i64>>, g: spec_fn(Seq<i64>) -> int)
    ensures
        root_prod(a + b, g) == root_prod(a, g) * root_prod(b, g),
    decreases b.len(),
{
    if b.len() == 0 {
        assert(a + b =~= a);
    } else {
        lemma_root_prod_concat(a, b.drop_last(), g);
        assert((a + b).drop_last() =~= a + b.drop_last());
        assert((a + b).last() == b.last());
        let x = root_prod(a, g);
        let y = root_prod(b.drop_last(), g);
        let z = g(b.last());
        assert(x * y * z == x * (y * z)) by (nonlinear_arith);
    }
}

/// Products of two functions that agree on the list agree.
proof fn lemma_root_prod_congr(s: Seq<Seq<i64>>, f: spec_fn(Seq<i64>) -> int, g: spec_fn(Seq<i64>) -> int)
    requires
        forall|k: int| 0 <= k < s.len() ==> f(#[trigger] s[k]) == g(s[k]),
    ensures
        root_prod(s, f) == root_prod(s, g),
    decreases s.len(),
{
    if s.len() > 0 {
        assert forall|k: int| 0 <= k < s.drop_last().len() implies f(#[trigger] s.drop_last()[k])
            == g(s.drop_last()[k]) by {
            assert(s.drop_last()[k] == s[k]);
        }
        lemma_root_prod_congr(s.drop_last(), f, g);
        assert(f(s.last()) == g(s.last()));
    }
}

/// `g` read through [`flip_last`].
pub open spec fn flipped(g: spec_fn(Seq<i64>) -> int) -> spec_fn(Seq<i64>) -> int {
    |a: Seq<i64>| g(flip_last(a))
}

/// A root `e_i ± e_j` with `j < r - 1` has no last coordinate to flip.
proof fn lemma_flip_fixes_root(r: int, i: int, j: int, d: int)
    requires
        0 <= i < j < r - 1,
        d == 1 || d == -1,
    ensures
        flip_last(root_vec(r, i, j, 1, d)) == root_vec(r, i, j, 1, d),
{
    assert(flip_last(root_vec(r, i, j, 1, d)) =~= root_vec(r, i, j, 1, d));
}

/// Flipping the last coordinate swaps `e_i − e_{r-1}` and `e_i + e_{r-1}`.
proof fn lemma_flip_swaps_root(r: int, i: int)
    requires
        0 <= i < r - 1,
    ensures
        flip_last(root_vec(r, i, r - 1, 1, -1)) == root_vec(r, i, r - 1, 1, 1),
        flip_last(root_vec(r, i, r - 1, 1, 1)) == root_vec(r, i, r - 1, 1, -1),
{
    assert(flip_last(root_vec(r, i, r - 1, 1, -1)) =~= root_vec(r, i, r - 1, 1, 1));
    assert(flip_last(root_vec(r, i, r - 1, 1, 1)) =~= root_vec(r, i, r - 1, 1, -1));
}

/// The roots `e_i ± e_j`, `j < r - 1`, of a row are fixed by the flip, so a
/// product over them does not see it.
proof fn lemma_row_prod_fixed(r: int, i: int, j: int, g: spec_fn(Seq<i64>) -> int)
    requires
        0 <= i,
        j <= r - 1,
    ensures
        root_prod(row_roots(r, i, j), flipped(g)) == root_prod(row_roots(r, i, j), g),
    decreases j - i,
{
    if j > i + 1 {
        lemma_row_prod_fixed(r, i, j - 1, g);
        let s = row_roots(r, i, j - 1);
        let a = root_vec(r, i, j - 1, 1, -1);
        let b = root_vec(r, i, j - 1, 1, 1);
        lemma_flip_fixes_root(r, i, j - 1, -1);
        lemma_flip_fixes_root(r, i, j - 1, 1);
        assert(row_roots(r, i, j) == s.push(a).push(b));
        assert(s.push(a).push(b).drop_last() == s.push(a));
        assert(s.push(a).drop_last() == s);
        assert(flipped(g)(a) == g(a));
        assert(flipped(g)(b) == g(b));
        assert(root_prod(s.push(a), flipped(g)) == root_prod(s, flipped(g)) * flipped(g)(a));
        assert(root_prod(s.push(a), g) == root_prod(s, g) * g(a));
        assert(root_prod(s.push(a).push(b), flipped(g)) == root_prod(s.push(a), flipped(g)) * flipped(
            g,
        )(b));
        assert(root_prod(s.push(a).push(b), g) == root_prod(s.push(a), g) * g(b));
    }
}

/// A row of roots is permuted by the flip, so a product over it does not see
/// it.
proof fn lemma_row_prod_flip(r: int, i: int, g: spec_fn(Seq<i64>) -> int)
    requires
        0 <= i,
        r >= 2,
    ensures
        root_prod(row_roots(r, i, r), flipped(g)) == root_prod(row_roots(r, i, r), g),
{
    if r > i + 1 {
        let s = row_roots(r, i, r - 1);
        let a = root_vec(r, i, r - 1, 1, -1);
        let b = root_vec(r, i, r - 1, 1, 1);
        assert(row_roots(r, i, r) == s.push(a).push(b));
        lemma_row_prod_fixed(r, i, r - 1, g);
        lemma_flip_swaps_root(r, i);
        assert(s.push(a).push(b).drop_last() == s.push(a));
        assert(s.push(a).drop_last() == s);
        assert(flipped(g)(a) == g(b));
        assert(flipped(g)(b) == g(a));
        assert(root_prod(s.push(a), flipped(g)) == root_prod(s, flipped(g)) * flipped(g)(a));
        assert(root_prod(s.push(a), g) == root_prod(s, g) * g(a));
        assert(root_prod(s.push(a).push(b), flipped(g)) == root_prod(s.push(a), flipped(g)) * flipped(
            g,
        )(b));
        assert(root_prod(s.push(a).push(b), g) == root_prod(s.push(a), g) * g(b));
        let p = root_prod(s, g);
        let x = g(a);
        let y = g(b);
        assert(p * y * x == p * x * y) by (nonlinear_arith);
    }
}

/// The flip permutes the roots `e_i ± e_j`, so a product over them does not
/// see it.
proof fn lemma_pair_prod_flip(r: int, k: int, g: spec_fn(Seq<i64>) -> int)
    requires
        r >= 2,
        0 <= k,
    ensures
        root_prod(pair_roots(r, k), flipped(g)) == root_prod(pair_roots(r, k), g),
    decreases k,
{
    if k > 0 {
        lemma_pair_prod_flip(r, k - 1, g);
        lemma_row_prod_flip(r, k - 1, g);
        lemma_root_prod_concat(pair_roots(r, k - 1), row_roots(r, k - 1, r), flipped(g));
        lemma_root_prod_concat(pair_roots(r, k - 1), row_roots(r, k - 1, r), g);
    }
}

/// `Σ u_i v_i` reads only the first `u.len()` coordinates of `v`.
proof fn lemma_dot_prefix_only(u: Seq<i64>, v: Seq<i64>, w: Seq<i64>)
    requires
        v.len() >= u.len(),
        w.len() >= u.len(),
        forall|i: int| 0 <= i < u.len() ==> v[i] == w[i],
    ensures
        dot_spec(u, v) == dot_spec(u, w),
    decreases u.len(),
{
    if u.len() > 0 {
        lemma_dot_prefix_only(u.drop_last(), v, w);
    }
}

/// Flipping the last coordinate moves across an inner product.
proof fn lemma_dot_flip(u: Seq<i64>, v: Seq<i64>)
    requires
        u.len() == v.len() >= 1,
        u[u.len() - 1] > i64::MIN,
        v[v.len() - 1] > i64::MIN,
    ensures
        dot_spec(u, flip_last(v)) == dot_spec(flip_last(u), v),
{
    let n = u.len() - 1;
    lemma_dot_prefix_only(u.drop_last(), flip_last(v), v);
    assert(flip_last(u).drop_last() =~= u.drop_last());
    let x = u[n];
    let y = v[n];
    assert(x * (-y) == (-x) * y) by (nonlinear_arith);
}

/// Flipping the last coordinate does not change an inner product with a
/// vector whose last coordinate is `0`.
proof fn lemma_dot_flip_zero(u: Seq<i64>, t: Seq<i64>)
    requires
        u.len() == t.len() >= 1,
        t[t.len() - 1] == 0,
    ensures
        dot_spec(flip_last(u), t) == dot_spec(u, t),
{
    assert(flip_last(u).drop_last() =~= u.drop_last());
}

/// The factor `2⟨α,λ⟩ + ⟨α,2ρ⟩` of the Weyl numerator.
pub open spec fn weyl_factor(lam: Seq<i64>, tr: Seq<i64>) -> spec_fn(Seq<i64>) -> int {
    |alpha: Seq<i64>| 2 * dot_spec(alpha, lam) + dot_spec(alpha, tr)
}

/// The Weyl numerator is the product of its factors.
proof fn lemma_weyl_num_prod(lam: Seq<i64>, tr: Seq<i64>, roots: Seq<Seq<i64>>)
    ensures
        weyl_num(lam, tr, roots) == root_prod(roots, weyl_factor(lam, tr)),
    decreases roots.len(),
{
    if roots.len() > 0 {
        lemma_weyl_num_prod(lam, tr, roots.drop_last());
    }
}

/// Every root of `pair_roots` has `r` coordinates with entries in `[-1, 1]`.
proof fn lemma_pair_roots_shape(r: int, k: int)
    requires
        0 <= k,
        r >= 1,
    ensures
        forall|t: int|
            0 <= t < pair_roots(r, k).len() ==> (#[trigger] pair_roots(r, k)[t]).len() == r
                && pair_roots(r, k)[t][r - 1] > i64::MIN && bounded(pair_roots(r, k)[t], 1),
    decreases k,
{
    if k > 0 {
        lemma_pair_roots_shape(r, k - 1);
        lemma_row_roots_shape(r, k - 1, r);
        let a = pair_roots(r, k - 1);
        let b = row_roots(r, k - 1, r);
        assert forall|t: int| 0 <= t < (a + b).len() implies (#[trigger] (a + b)[t]).len() == r
            && (a + b)[t][r - 1] > i64::MIN && bounded((a + b)[t], 1) by {
            if t < a.len() {
                assert((a + b)[t] == a[t]);
            } else {
                assert((a + b)[t] == b[t - a.len()]);
            }
        }
    }
}

/// Every root of a row has `r` coordinates with entries in `[-1, 1]`.
proof fn lemma_row_roots_shape(r: int, i: int, j: int)
    requires
        r >= 1,
    ensures
        forall|t: int|
            0 <= t < row_roots(r, i, j).len() ==> (#[trigger] row_roots(r, i, j)[t]).len() == r
                && row_roots(r, i, j)[t][r - 1] > i64::MIN && bounded(row_roots(r, i, j)[t], 1),
    decreases j - i,
{
    if j > i + 1 {
        lemma_row_roots_shape(r, i, j - 1);
        let s = row_roots(r, i, j - 1);
        let a = root_vec(r, i, j - 1, 1, -1);
        let b = root_vec(r, i, j - 1, 1, 1);
        assert(row_roots(r, i, j) == s.push(a).push(b));
        assert forall|t: int| 0 <= t < s.push(a).push(b).len() implies (#[trigger] s.push(a).push(b)[t]).len()
            == r && s.push(a).push(b)[t][r - 1] > i64::MIN && bounded(s.push(a).push(b)[t], 1) by {
            if t < s.len() {
                assert(s.push(a).push(b)[t] == s[t]);
            } else if t == s.len() {
                assert(s.push(a).push(b)[t] == a);
            } else {
                assert(s.push(a).push(b)[t] == b);
            }
        }
    }
}

/// Dualising preserves the Weyl dimension: `dim(λ̄) = dim(λ)`.
pub proof fn lemma_dual_dim(series: Series, lam: Seq<i64>)
    requires
        weight_wf(series, lam),
    ensures
        dim_spec(series, dual_weight(series, lam)) == dim_spec(series, lam),
{
    let r = lam.len() as int;
    if series == Series::D && r % 2 == 1 {
        let tr = two_rho_seq(series, r);
        let roots = positive_roots_spec(series, r);
        let mu = dual_weight(series, lam);
        assert(mu == flip_last(lam));
        assert(roots =~= pair_roots(r, r));
        assert(lam[r - 1] > i64::MIN);
        assert(tr[r - 1] == 0);
        lemma_weyl_num_prod(lam, tr, roots);
        lemma_weyl_num_prod(mu, tr, roots);
        lemma_pair_roots_shape(r, r);
        assert forall|k: int| 0 <= k < roots.len() implies weyl_factor(mu, tr)(#[trigger] roots[k])
            == flipped(weyl_factor(lam, tr))(roots[k]) by {
            let alpha = roots[k];
            lemma_dot_flip(alpha, lam);
            lemma_dot_flip_zero(alpha, tr);
        }
        lemma_root_prod_congr(roots, weyl_factor(mu, tr), flipped(weyl_factor(lam, tr)));
        lemma_pair_prod_flip(r, r, weyl_factor(lam, tr));
    }
}

// ---- the flip on weights --------------------------------------------------------------

/// The flip is an involution on vectors whose last coordinate is not
/// `i64::MIN`.
pub(crate) proof fn lemma_flip_involution(v: Seq<i64>)
    requires
        v.len() >= 1,
        v[v.len() - 1] > i64::MIN,
    ensures
        flip_last(flip_last(v)) == v,
        flip_last(v).len() == v.len(),
        flip_last(v)[v.len() - 1] > i64::MIN,
{
    assert(flip_last(flip_last(v)) =~= v);
}

/// The flip keeps a coordinate box.
pub(crate) proof fn lemma_flip_bounded(v: Seq<i64>, b: int)
    requires
        v.len() >= 1,
        bounded(v, b),
        0 <= b <= i64::MAX,
    ensures
        bounded(flip_last(v), b),
{
}

/// The flip keeps `D`-dominance.
proof fn lemma_flip_dominant(mu: Seq<i64>)
    requires
        mu.len() >= 2,
        mu[mu.len() - 1] > i64::MIN,
    ensures
        is_dominant(Series::D, flip_last(mu)) == is_dominant(Series::D, mu),
{
    let r = mu.len() as int;
    let f = flip_last(mu);
    assert forall|i: int| 0 <= i < r - 1 implies f[i] == mu[i] by {}
    assert(f[r - 2] == mu[r - 2]);
    assert(f[r - 1] == -mu[r - 1]);
}

/// The flip commutes with differences of bounded vectors.
proof fn lemma_flip_sub(a: Seq<i64>, b: Seq<i64>)
    requires
        a.len() == b.len() >= 1,
        bounded(a, 0x1000_0000_0000_0000),
        bounded(b, 0x1000_0000_0000_0000),
    ensures
        sub_spec(flip_last(a), flip_last(b)) == flip_last(sub_spec(a, b)),
{
    assert(sub_spec(flip_last(a), flip_last(b)) =~= flip_last(sub_spec(a, b)));
}

/// Prefix sums short of the last coordinate do not see the flip; the full sum
/// loses twice the last coordinate.
proof fn lemma_flip_prefix_sum(d: Seq<i64>, m: int)
    requires
        d.len() >= 1,
        0 <= m <= d.len(),
        d[d.len() - 1] > i64::MIN,
    ensures
        m < d.len() ==> prefix_sum(flip_last(d), m) == prefix_sum(d, m),
        m == d.len() ==> prefix_sum(flip_last(d), m) == prefix_sum(d, m) - 2 * d[d.len() - 1],
    decreases m,
{
    if m > 0 {
        lemma_flip_prefix_sum(d, m - 1);
    }
}

/// The flip exchanges the last two simple-root coefficients of `D` and keeps
/// the others.
proof fn lemma_flip_simple_coeff(d: Seq<i64>, i: int)
    requires
        d.len() >= 3,
        0 <= i < d.len(),
        d[d.len() - 1] > i64::MIN,
    ensures
        i < d.len() - 2 ==> simple_coeff(Series::D, flip_last(d), i) == simple_coeff(Series::D, d, i),
        i == d.len() - 2 ==> simple_coeff(Series::D, flip_last(d), i) == simple_coeff(
            Series::D,
            d,
            d.len() - 1,
        ),
        i == d.len() - 1 ==> simple_coeff(Series::D, flip_last(d), i) == simple_coeff(
            Series::D,
            d,
            d.len() - 2,
        ),
{
    let r = d.len() as int;
    lemma_flip_prefix_sum(d, r);
    if i < r - 2 {
        lemma_flip_prefix_sum(d, i + 1);
    }
}

/// The flip keeps the positive root cone of `D`.
proof fn lemma_flip_cone(d: Seq<i64>)
    requires
        d.len() >= 3,
        d[d.len() - 1] > i64::MIN,
    ensures
        in_positive_root_cone(Series::D, flip_last(d)) == in_positive_root_cone(Series::D, d),
{
    let r = d.len() as int;
    lemma_flip_prefix_sum(d, r);
    if in_positive_root_cone(Series::D, d) {
        assert forall|i: int| 0 <= i < r implies simple_coeff(Series::D, flip_last(d), i) >= 0 by {
            lemma_flip_simple_coeff(d, i);
            assert(simple_coeff(Series::D, d, r - 1) >= 0);
            assert(simple_coeff(Series::D, d, r - 2) >= 0);
            assert(simple_coeff(Series::D, d, i) >= 0);
        }
    }
    if in_positive_root_cone(Series::D, flip_last(d)) {
        assert forall|i: int| 0 <= i < r implies simple_coeff(Series::D, d, i) >= 0 by {
            lemma_flip_simple_coeff(d, i);
            lemma_flip_simple_coeff(d, r - 1);
            lemma_flip_simple_coeff(d, r - 2);
            assert(simple_coeff(Series::D, flip_last(d), r - 1) >= 0);
            assert(simple_coeff(Series::D, flip_last(d), r - 2) >= 0);
            assert(simple_coeff(Series::D, flip_last(d), i) >= 0);
        }
    }
}

/// The flip keeps the sum of the simple-root coefficients of `D`.
proof fn lemma_flip_coeff_sum(d: Seq<i64>, n: int)
    requires
        d.len() >= 3,
        0 <= n <= d.len(),
        n != d.len() - 1,
        d[d.len() - 1] > i64::MIN,
    ensures
        coeff_sum(Series::D, flip_last(d), n) == coeff_sum(Series::D, d, n),
    decreases n,
{
    let r = d.len() as int;
    if n == r {
        lemma_flip_coeff_sum(d, r - 2);
        lemma_flip_simple_coeff(d, r - 2);
        lemma_flip_simple_coeff(d, r - 1);
        assert(coeff_sum(Series::D, d, r - 1) == coeff_sum(Series::D, d, r - 2) + simple_coeff(
            Series::D,
            d,
            r - 2,
        ));
        assert(coeff_sum(Series::D, flip_last(d), r - 1) == coeff_sum(Series::D, flip_last(d), r - 2)
            + simple_coeff(Series::D, flip_last(d), r - 2));
        assert(coeff_sum(Series::D, d, r) == coeff_sum(Series::D, d, r - 2) + simple_coeff(
            Series::D,
            d,
            r - 2,
        ) + simple_coeff(Series::D, d, r - 1));
        assert(coeff_sum(Series::D, flip_last(d), r) == coeff_sum(Series::D, flip_last(d), r - 2)
            + simple_coeff(Series::D, flip_last(d), r - 2) + simple_coeff(
            Series::D,
            flip_last(d),
            r - 1,
        ));
    } else if n > 0 {
        lemma_flip_coeff_sum(d, n - 1);
        lemma_flip_simple_coeff(d, n - 1);
    }
}

/// For weights in the box `|x| ≤ 2^24`, the flip keeps "dominant below" and
/// the depth below the highest weight.
proof fn lemma_flip_below(lam: Seq<i64>, mu: Seq<i64>)
    requires
        lam.len() >= 3,
        mu.len() == lam.len(),
        bounded(lam, 0x100_0000),
        bounded(mu, 0x1000_0000),
    ensures
        dominant_below(Series::D, flip_last(lam), flip_last(lam)[0] as int, flip_last(mu))
            == dominant_below(Series::D, lam, lam[0] as int, mu),
        depth_spec(Series::D, flip_last(lam), flip_last(mu)) == depth_spec(Series::D, lam, mu),
        flip_last(lam)[0] == lam[0],
{
    let r = lam.len() as int;
    lemma_flip_dominant(mu);
    lemma_flip_involution(mu);
    if lam[0] >= 0 && bounded(mu, lam[0] as int) {
        lemma_flip_bounded(mu, lam[0] as int);
    }
    if lam[0] >= 0 && bounded(flip_last(mu), lam[0] as int) {
        lemma_flip_bounded(flip_last(mu), lam[0] as int);
    }
    if lam[0] < 0 {
        assert(!bounded(mu, lam[0] as int)) by {
            assert(mu[0] == mu[0]);
        }
        assert(!bounded(flip_last(mu), lam[0] as int)) by {
            assert(flip_last(mu)[0] == flip_last(mu)[0]);
        }
    }
    lemma_flip_sub(lam, mu);
    let d = sub_spec(lam, mu);
    assert(d[r - 1] > i64::MIN);
    lemma_flip_cone(d);
    lemma_flip_coeff_sum(d, r);
}

/// The flip keeps `⟨w,w⟩ + ⟨w,2ρ⟩` for `D`, whose `2ρ` ends in `0`.
proof fn lemma_flip_casimir(w: Seq<i64>)
    requires
        w.len() >= 1,
        w[w.len() - 1] > i64::MIN,
    ensures
        casimir_spec(Series::D, flip_last(w)) == casimir_spec(Series::D, w),
{
    let n = w.len() - 1;
    let f = flip_last(w);
    let tr = two_rho_seq(Series::D, w.len() as int);
    lemma_dot_flip_zero(w, tr);
    lemma_dot_prefix_only(w.drop_last(), f, w);
    assert(f.drop_last() =~= w.drop_last());
    let x = w[n];
    assert((-x) * (-x) == x * x) by (nonlinear_arith);
}

/// The flip commutes with a shift along a root: `σμ + kα = σ(μ + kσα)`.
proof fn lemma_flip_shift(mu: Seq<i64>, alpha: Seq<i64>, k: int)
    requires
        mu.len() == alpha.len() >= 1,
        bounded(mu, 0x100_0000),
        bounded(alpha, 2),
        0 <= k <= 0x400_0000,
    ensures
        shift_spec(flip_last(mu), alpha, k) == flip_last(shift_spec(mu, flip_last(alpha), k)),
        bounded(shift_spec(mu, flip_last(alpha), k), 0x1000_0000),
{
    let n = mu.len() - 1;
    let fa = flip_last(alpha);
    assert forall|t: int| 0 <= t < mu.len() implies -0x1000_0000 <= #[trigger] (mu[t] + k * fa[t])
        <= 0x1000_0000 by {
        let a = fa[t];
        assert(-2 <= a <= 2);
        assert(-0x800_0000 <= k * a <= 0x800_0000) by (nonlinear_arith)
            requires
                -2 <= a <= 2,
                0 <= k <= 0x400_0000,
        ;
    }
    let a = alpha[n];
    assert(k * (-a) == -(k * a)) by (nonlinear_arith);
    assert(shift_spec(flip_last(mu), alpha, k) =~= flip_last(shift_spec(mu, flip_last(alpha), k)));
}

/// The flip does not change absolute values.
proof fn lemma_flip_abs(v: Seq<i64>)
    requires
        v.len() >= 1,
        v[v.len() - 1] > i64::MIN,
    ensures
        abs_seq(flip_last(v)) == abs_seq(v),
{
    assert(abs_seq(flip_last(v)) =~= abs_seq(v));
}

/// Negating the last coordinate changes the number of negative coordinates
/// by one, unless it is `0`.
proof fn lemma_flip_neg_count(v: Seq<i64>)
    requires
        v.len() >= 1,
        v[v.len() - 1] > i64::MIN,
    ensures
        v[v.len() - 1] < 0 ==> neg_count(flip_last(v)) + 1 == neg_count(v),
        v[v.len() - 1] > 0 ==> neg_count(flip_last(v)) == neg_count(v) + 1,
        v[v.len() - 1] == 0 ==> neg_count(flip_last(v)) == neg_count(v),
{
    assert(flip_last(v).drop_last() =~= v.drop_last());
}

/// The dominant representative of a flipped weight is the flipped dominant
/// representative (`D`).
pub(crate) proof fn lemma_flip_weyl_dominant(v: Seq<i64>)
    requires
        v.len() >= 1,
        bounded(v, i64::MAX as int),
    ensures
        weyl_dominant_spec(Series::D, flip_last(v)) == flip_last(weyl_dominant_spec(Series::D, v)),
{
    let n = v.len() - 1;
    lemma_flip_abs(v);
    lemma_flip_neg_count(v);
    let a = abs_seq(v);
    let s = sort_desc(a);
    assert forall|i: int| 0 <= i < a.len() implies a[i] >= 0 by {}
    lemma_sorted_entries_nonneg(a);
    lemma_sort_desc_last_min(a);
    assert(s.len() == v.len());
    let last = s.len() - 1;
    assert(s[last] >= 0);
    if v[n] == 0 {
        assert(a[n] == 0);
        assert(s[last] <= a[n]);
        assert(s[last] == 0);
        assert(flip_last(s) =~= s);
    } else {
        if s[last] == 0 {
            assert(flip_last(s) =~= s);
        } else {
            assert(flip_last(flip_last(s)) =~= s);
            assert(s.update(last, (-s[last]) as i64) == flip_last(s));
        }
    }
}

// ---- sums over the roots ---------------------------------------------------------------

/// `Σ_{α ∈ s} g(α)`.
pub open spec fn root_sum(s: Seq<Seq<i64>>, g: spec_fn(Seq<i64>) -> int) -> int
    decreases s.len(),
{
    if s.len() == 0 {
        0
    } else {
        root_sum(s.drop_last(), g) + g(s.last())
    }
}

/// Sums over a concatenation add.
proof fn lemma_root_sum_concat(a: Seq<Seq<i64>>, b: Seq<Seq<i64>>, g: spec_fn(Seq<i64>) -> int)
    ensures
        root_sum(a + b, g) == root_sum(a, g) + root_sum(b, g),
    decreases b.len(),
{
    if b.len() == 0 {
        assert(a + b =~= a);
    } else {
        lemma_root_sum_concat(a, b.drop_last(), g);
        assert((a + b).drop_last() =~= a + b.drop_last());
        assert((a + b).last() == b.last());
    }
}

/// Sums of two functions that agree on the list agree.
proof fn lemma_root_sum_congr(s: Seq<Seq<i64>>, f: spec_fn(Seq<i64>) -> int, g: spec_fn(Seq<i64>) -> int)
    requires
        forall|k: int| 0 <= k < s.len() ==> f(#[trigger] s[k]) == g(s[k]),
    ensures
        root_sum(s, f) == root_sum(s, g),
    decreases s.len(),
{
    if s.len() > 0 {
        assert forall|k: int| 0 <= k < s.drop_last().len() implies f(#[trigger] s.drop_last()[k])
            == g(s.drop_last()[k]) by {
            assert(s.drop_last()[k] == s[k]);
        }
        lemma_root_sum_congr(s.drop_last(), f, g);
        assert(f(s.last()) == g(s.last()));
    }
}

/// A sum over the flip-fixed part of a row does not see the flip.
proof fn lemma_row_sum_fixed(r: int, i: int, j: int, g: spec_fn(Seq<i64>) -> int)
    requires
        0 <= i,
        j <= r - 1,
    ensures
        root_sum(row_roots(r, i, j), flipped(g)) == root_sum(row_roots(r, i, j), g),
    decreases j - i,
{
    if j > i + 1 {
        lemma_row_sum_fixed(r, i, j - 1, g);
        let s = row_roots(r, i, j - 1);
        let a = root_vec(r, i, j - 1, 1, -1);
        let b = root_vec(r, i, j - 1, 1, 1);
        lemma_flip_fixes_root(r, i, j - 1, -1);
        lemma_flip_fixes_root(r, i, j - 1, 1);
        assert(row_roots(r, i, j) == s.push(a).push(b));
        assert(s.push(a).push(b).drop_last() == s.push(a));
        assert(s.push(a).drop_last() == s);
        assert(flipped(g)(a) == g(a));
        assert(flipped(g)(b) == g(b));
        assert(root_sum(s.push(a), flipped(g)) == root_sum(s, flipped(g)) + flipped(g)(a));
        assert(root_sum(s.push(a), g) == root_sum(s, g) + g(a));
        assert(root_sum(s.push(a).push(b), flipped(g)) == root_sum(s.push(a), flipped(g)) + flipped(
            g,
        )(b));
        assert(root_sum(s.push(a).push(b), g) == root_sum(s.push(a), g) + g(b));
    }
}

/// A sum over a row does not see the flip.
proof fn lemma_row_sum_flip(r: int, i: int, g: spec_fn(Seq<i64>) -> int)
    requires
        0 <= i,
        r >= 2,
    ensures
        root_sum(row_roots(r, i, r), flipped(g)) == root_sum(row_roots(r, i, r), g),
{
    if r > i + 1 {
        let s = row_roots(r, i, r - 1);
        let a = root_vec(r, i, r - 1, 1, -1);
        let b = root_vec(r, i, r - 1, 1, 1);
        assert(row_roots(r, i, r) == s.push(a).push(b));
        lemma_row_sum_fixed(r, i, r - 1, g);
        lemma_flip_swaps_root(r, i);
        assert(s.push(a).push(b).drop_last() == s.push(a));
        assert(s.push(a).drop_last() == s);
        assert(flipped(g)(a) == g(b));
        assert(flipped(g)(b) == g(a));
        assert(root_sum(s.push(a), flipped(g)) == root_sum(s, flipped(g)) + flipped(g)(a));
        assert(root_sum(s.push(a), g) == root_sum(s, g) + g(a));
        assert(root_sum(s.push(a).push(b), flipped(g)) == root_sum(s.push(a), flipped(g)) + flipped(
            g,
        )(b));
        assert(root_sum(s.push(a).push(b), g) == root_sum(s.push(a), g) + g(b));
    }
}

/// A sum over the roots `e_i ± e_j` does not see the flip.
proof fn lemma_pair_sum_flip(r: int, k: int, g: spec_fn(Seq<i64>) -> int)
    requires
        r >= 2,
        0 <= k,
    ensures
        root_sum(pair_roots(r, k), flipped(g)) == root_sum(pair_roots(r, k), g),
    decreases k,
{
    if k > 0 {
        lemma_pair_sum_flip(r, k - 1, g);
        lemma_row_sum_flip(r, k - 1, g);
        lemma_root_sum_concat(pair_roots(r, k - 1), row_roots(r, k - 1, r), flipped(g));
        lemma_root_sum_concat(pair_roots(r, k - 1), row_roots(r, k - 1, r), g);
    }
}

// ---- Freudenthal multiplicities of the flipped irrep -------------------------------------

/// The `α`-string sums of the Freudenthal recursion at `μ`, as a function of
/// the root.
pub open spec fn string_at(lam: Seq<i64>, mu: Seq<i64>) -> spec_fn(Seq<i64>) -> int {
    |alpha: Seq<i64>| freudenthal_string(Series::D, lam, mu, alpha, 1)
}

/// The suffix sums of the Freudenthal root sum.
proof fn lemma_roots_as_sum(lam: Seq<i64>, mu: Seq<i64>, i: int)
    requires
        0 <= i <= positive_roots_spec(Series::D, lam.len() as int).len(),
    ensures
        freudenthal_roots(Series::D, lam, mu, i) + root_sum(
            positive_roots_spec(Series::D, lam.len() as int).take(i),
            string_at(lam, mu),
        ) == root_sum(positive_roots_spec(Series::D, lam.len() as int), string_at(lam, mu)),
    decreases positive_roots_spec(Series::D, lam.len() as int).len() - i,
{
    let roots = positive_roots_spec(Series::D, lam.len() as int);
    if i == roots.len() {
        assert(roots.take(i) =~= roots);
    } else {
        lemma_roots_as_sum(lam, mu, i + 1);
        assert(roots.take(i + 1).drop_last() =~= roots.take(i));
        assert(roots.take(i + 1).last() == roots[i]);
    }
}

/// `⟨σu, σu⟩ = ⟨u, u⟩`.
proof fn lemma_dot_flip_self(u: Seq<i64>)
    requires
        u.len() >= 1,
        u[u.len() - 1] > i64::MIN,
    ensures
        dot_spec(flip_last(u), flip_last(u)) == dot_spec(u, u),
{
    lemma_dot_flip(u, flip_last(u));
    lemma_flip_involution(u);
}

/// The dominant representative of a vector in a box stays in the box.
proof fn lemma_weyl_dominant_bounded(v: Seq<i64>, b: int)
    requires
        v.len() >= 1,
        bounded(v, b),
        0 <= b < i64::MAX,
    ensures
        weyl_dominant_spec(Series::D, v).len() == v.len(),
        bounded(weyl_dominant_spec(Series::D, v), b),
{
    let a = abs_seq(v);
    assert(bounded(a, b));
    lemma_sort_desc_bounded(a, b);
}

/// The common hypotheses of the flip lemmas for the Freudenthal recursion.
pub open spec fn flip_ready(lam: Seq<i64>) -> bool {
    &&& lam.len() >= 3
    &&& bounded(lam, WEIGHT_BOUND as int)
}

/// `m_{σλ}(σμ) = m_λ(μ)` for `D`: the multiplicity recursion does not see
/// the flip.
pub(crate) proof fn lemma_fm_flip(lam: Seq<i64>, mu: Seq<i64>)
    requires
        flip_ready(lam),
        mu.len() == lam.len(),
        bounded(mu, 0x1000_0000),
    ensures
        freudenthal_mult(Series::D, flip_last(lam), flip_last(mu)) == freudenthal_mult(
            Series::D,
            lam,
            mu,
        ),
    decreases depth_nat(Series::D, lam, mu), 3int, 0int,
{
    lemma_flip_below(lam, mu);
    lemma_flip_involution(lam);
    lemma_flip_involution(mu);
    if dominant_below(Series::D, lam, lam[0] as int, mu) && mu != lam {
        assert(flip_last(mu) != flip_last(lam));
        lemma_flip_casimir(lam);
        lemma_flip_casimir(mu);
        lemma_roots_flip(lam, mu);
    }
}

/// The Freudenthal root sum does not see the flip.
proof fn lemma_roots_flip(lam: Seq<i64>, mu: Seq<i64>)
    requires
        flip_ready(lam),
        mu.len() == lam.len(),
        dominant_below(Series::D, lam, lam[0] as int, mu),
    ensures
        freudenthal_roots(Series::D, flip_last(lam), flip_last(mu), 0) == freudenthal_roots(
            Series::D,
            lam,
            mu,
            0,
        ),
    decreases depth_nat(Series::D, lam, mu), 2int, 0int,
{
    let r = lam.len() as int;
    let roots = positive_roots_spec(Series::D, r);
    let fl = flip_last(lam);
    let fm = flip_last(mu);
    assert(roots =~= pair_roots(r, r));
    lemma_pair_roots_shape(r, r);
    lemma_roots_as_sum(lam, mu, 0);
    lemma_roots_as_sum(fl, fm, 0);
    assert(roots.take(0) =~= Seq::<Seq<i64>>::empty());
    assert forall|k: int| 0 <= k < roots.len() implies string_at(fl, fm)(#[trigger] roots[k]) == flipped(
        string_at(lam, mu),
    )(roots[k]) by {
        lemma_string_flip(lam, mu, roots[k], 1);
    }
    lemma_root_sum_congr(roots, string_at(fl, fm), flipped(string_at(lam, mu)));
    lemma_pair_sum_flip(r, r, string_at(lam, mu));
}

/// An `α`-string sum at `σμ` is the `σα`-string sum at `μ`.
proof fn lemma_string_flip(lam: Seq<i64>, mu: Seq<i64>, alpha: Seq<i64>, k: int)
    requires
        flip_ready(lam),
        mu.len() == lam.len(),
        dominant_below(Series::D, lam, lam[0] as int, mu),
        alpha.len() == lam.len(),
        bounded(alpha, 1),
    ensures
        freudenthal_string(Series::D, flip_last(lam), flip_last(mu), alpha, k) == freudenthal_string(
            Series::D,
            lam,
            mu,
            flip_last(alpha),
            k,
        ),
    decreases depth_nat(Series::D, lam, mu), 1int, string_bound(lam) + 1 - k,
{
    let fl = flip_last(lam);
    let fm = flip_last(mu);
    let fa = flip_last(alpha);
    lemma_flip_below(lam, mu);
    assert(string_bound(fl) == string_bound(lam));
    if 1 <= k <= string_bound(lam) {
        assert(lam[0] >= 0);
        lemma_flip_bounded(alpha, 1);
        lemma_flip_shift(mu, alpha, k);
        let x = shift_spec(mu, fa, k);
        lemma_flip_weyl_dominant(x);
        lemma_weyl_dominant_bounded(x, 0x1000_0000);
        let nu = weyl_dominant_spec(Series::D, x);
        lemma_known_flip(lam, mu, nu);
        lemma_dot_flip(alpha, mu);
        lemma_dot_flip_self(alpha);
        lemma_string_flip(lam, mu, alpha, k + 1);
    }
}

/// The multiplicities known at `σμ` are those known at `μ`, flipped.
proof fn lemma_known_flip(lam: Seq<i64>, mu: Seq<i64>, nu: Seq<i64>)
    requires
        flip_ready(lam),
        mu.len() == lam.len(),
        nu.len() == lam.len(),
        bounded(mu, 0x1000_0000),
        bounded(nu, 0x1000_0000),
    ensures
        freudenthal_known(Series::D, flip_last(lam), flip_last(mu), flip_last(nu))
            == freudenthal_known(Series::D, lam, mu, nu),
    decreases depth_nat(Series::D, lam, mu), 0int, 0int,
{
    lemma_flip_below(lam, mu);
    lemma_flip_below(lam, nu);
    if dominant_below(Series::D, lam, lam[0] as int, nu) && 0 <= depth_spec(Series::D, lam, nu)
        < depth_spec(Series::D, lam, mu) {
        lemma_fm_flip(lam, nu);
    }
}

/// Dualising maps weight multiplicities along: the multiplicity of the dual
/// weight `μ̄` in the dual irrep `λ̄` is the multiplicity of `μ` in `λ`.
pub proof fn lemma_dual_multiplicity(series: Series, lam: Seq<i64>, mu: Seq<i64>)
    requires
        weight_wf(series, lam),
        bounded(lam, WEIGHT_BOUND as int),
        mu.len() == lam.len(),
        bounded(mu, i64::MAX as int),
    ensures
        freudenthal_mult(series, dual_weight(series, lam), dual_weight(series, mu))
            == freudenthal_mult(series, lam, mu),
{
    let r = lam.len() as int;
    if series == Series::D && r % 2 == 1 {
        assert(dual_weight(series, lam) == flip_last(lam));
        assert(dual_weight(series, mu) == flip_last(mu));
        if bounded(mu, 0x1000_0000) {
            lemma_fm_flip(lam, mu);
        } else {
            let i = choose|i: int| 0 <= i < r && !(-0x1000_0000 <= #[trigger] mu[i] <= 0x1000_0000);
            let fl = flip_last(lam);
            let fm = flip_last(mu);
            assert(fl[0] == lam[0]);
            assert(!bounded(mu, lam[0] as int)) by {
                assert(mu[i] == mu[i]);
            }
            assert(fl[0] <= 0x100_0000);
            if i == r - 1 {
                assert(fm[i] == -mu[i]);
            } else {
                assert(fm[i] == mu[i]);
            }
            assert(!bounded(fm, fl[0] as int)) by {
                assert(fm[i] == fm[i]);
            }
        }
    }
}

// ---- Weyl orbits of flipped weights ------------------------------------------------------

/// A permutation of `0..n` has length `n`, no repeated entry, and entries
/// below `n`.
proof fn lemma_permutation_facts(p: Seq<usize>, n: nat)
    requires
        is_permutation(p, n),
        n <= 1024,
    ensures
        p.len() == n,
        p.no_duplicates(),
        forall|t: int| 0 <= t < p.len() ==> #[trigger] p[t] < n,
{
    broadcast use vstd::seq_lib::group_to_multiset_ensures;

    let ir = index_range(n);
    assert forall|i: int, j: int| 0 <= i < ir.len() && 0 <= j < ir.len() && i != j implies ir[i]
        != ir[j] by {
        assert(ir[i] == i as usize);
        assert(ir[j] == j as usize);
    }
    assert(ir.no_duplicates());
    ir.lemma_multiset_has_no_duplicates();
    assert(p.len() == ir.len()) by {
        assert(p.to_multiset().len() == ir.to_multiset().len());
    }
    assert forall|x: usize| p.to_multiset().contains(x) implies p.to_multiset().count(x) == 1 by {}
    p.lemma_multiset_has_no_duplicates_conv();
    assert forall|t: int| 0 <= t < p.len() implies #[trigger] p[t] < n by {
        assert(p.contains(p[t]));
        assert(p.to_multiset().contains(p[t]));
        assert(ir.to_multiset().contains(p[t]));
        assert(ir.contains(p[t]));
    }
}

/// Toggling one entry changes the number of set entries by one.
proof fn lemma_count_toggle(s: Seq<bool>, i: int)
    requires
        0 <= i < s.len(),
    ensures
        s[i] ==> count_true(s.update(i, !s[i])) + 1 == count_true(s),
        !s[i] ==> count_true(s.update(i, !s[i])) == count_true(s) + 1,
    decreases s.len(),
{
    let u = s.update(i, !s[i]);
    if i == s.len() - 1 {
        assert(u.drop_last() =~= s.drop_last());
    } else {
        lemma_count_toggle(s.drop_last(), i);
        assert(u.drop_last() =~= s.drop_last().update(i, !s[i]));
    }
}

/// A Weyl image of a bounded weight is bounded the same way.
pub(crate) proof fn lemma_weyl_image_bounded(mu: Seq<i64>, w: Seq<i64>, b: int)
    requires
        1 <= mu.len() <= 1024,
        bounded(mu, b),
        0 <= b <= i64::MAX,
        is_weyl_image(Series::D, mu, w),
    ensures
        w.len() == mu.len(),
        bounded(w, b),
{
    let (s, p) = choose|s: Seq<bool>, p: Seq<usize>|
        #![trigger permuted_by(signed_by(mu, s), p)]
        {
            &&& s.len() == mu.len()
            &&& (Series::D == Series::D ==> count_true(s) % 2 == 0)
            &&& is_permutation(p, mu.len())
            &&& w == permuted_by(signed_by(mu, s), p)
        };
    lemma_permutation_facts(p, mu.len());
    assert forall|t: int| 0 <= t < w.len() implies -b <= #[trigger] w[t] <= b by {
        let q = p[t] as int;
        assert(w[t] == signed_by(mu, s)[q]);
    }
}

/// The flip carries a Weyl image of `μ` to a Weyl image of `σμ` (`D`).
proof fn lemma_flip_weyl_image(mu: Seq<i64>, v: Seq<i64>)
    requires
        1 <= mu.len() <= 1024,
        bounded(mu, i64::MAX as int),
        is_weyl_image(Series::D, mu, v),
    ensures
        is_weyl_image(Series::D, flip_last(mu), flip_last(v)),
{
    let n = mu.len();
    let (s, p) = choose|s: Seq<bool>, p: Seq<usize>|
        #![trigger permuted_by(signed_by(mu, s), p)]
        {
            &&& s.len() == mu.len()
            &&& (Series::D == Series::D ==> count_true(s) % 2 == 0)
            &&& is_permutation(p, mu.len())
            &&& v == permuted_by(signed_by(mu, s), p)
        };
    lemma_permutation_facts(p, n);
    let last = n - 1;
    let q = p[last as int] as int;
    let s1 = s.update(q, !s[q]);
    let s2 = if q == last {
        s
    } else {
        s1.update(last as int, !s1[last as int])
    };
    if q != last {
        lemma_count_toggle(s, q);
        lemma_count_toggle(s1, last as int);
    }
    assert(count_true(s2) % 2 == 0);
    let fmu = flip_last(mu);
    let target = permuted_by(signed_by(fmu, s2), p);
    assert forall|t: int| 0 <= t < n implies #[trigger] target[t] == flip_last(v)[t] by {
        let i = p[t] as int;
        if t != last {
            assert(i != q);
        }
        assert(v[t] == signed_by(mu, s)[i]);
    }
    assert(target =~= flip_last(v));
    assert(s2.len() == fmu.len());
}

/// The Weyl images of `σμ` are the flips of those of `μ` (`D`).
pub(crate) proof fn lemma_flip_weyl_image_iff(mu: Seq<i64>, w: Seq<i64>)
    requires
        1 <= mu.len() <= 1024,
        bounded(mu, i64::MAX as int),
        w.len() == mu.len(),
        bounded(w, i64::MAX as int),
    ensures
        is_weyl_image(Series::D, flip_last(mu), w) == is_weyl_image(Series::D, mu, flip_last(w)),
{
    lemma_flip_involution(mu);
    lemma_flip_involution(w);
    lemma_flip_bounded(mu, i64::MAX as int);
    lemma_flip_bounded(w, i64::MAX as int);
    if is_weyl_image(Series::D, mu, flip_last(w)) {
        lemma_flip_weyl_image(mu, flip_last(w));
    }
    if is_weyl_image(Series::D, flip_last(mu), w) {
        lemma_flip_weyl_image(flip_last(mu), w);
    }
}

// ---- Racah–Speiser contributions under the flip ----------------------------------------

/// `x / 2` toward zero is odd.
proof fn lemma_half_odd(x: int)
    ensures
        half_toward_zero(-x) == -half_toward_zero(x),
{
}

/// The Racah–Speiser contribution of `σω` to `σc` in `σa ⊗ ·` is that of `ω`
/// to `c` in `a ⊗ ·` (`D`).
pub(crate) proof fn lemma_flip_contribution(a: Seq<i64>, omega: Seq<i64>, c: Seq<i64>)
    requires
        a.len() >= 1,
        omega.len() == a.len(),
        c.len() == a.len(),
        bounded(a, WEIGHT_BOUND as int),
        bounded(omega, WEIGHT_BOUND as int),
        bounded(c, i64::MAX as int),
        a.len() <= 1024,
    ensures
        rs_contribution(Series::D, flip_last(a), flip_last(omega), flip_last(c)) == rs_contribution(
            Series::D,
            a,
            omega,
            c,
        ),
{
    let r = a.len() as int;
    let x = two_xi_spec(Series::D, a, omega);
    let fx = two_xi_spec(Series::D, flip_last(a), flip_last(omega));
    assert(two_rho_entry(Series::D, r, r - 1) == 0);
    assert forall|t: int| 0 <= t < r implies -0x1000_0000 <= #[trigger] x[t] <= 0x1000_0000 by {
        assert(-2048 <= two_rho_entry(Series::D, r, t) <= 2048);
    }
    assert(fx =~= flip_last(x));
    lemma_flip_abs(x);
    assert forall|i: int| 0 <= i < r implies #[trigger] abs_i64(fx[i]) == abs_i64(x[i]) by {
        assert(abs_seq(fx)[i] == abs_seq(x)[i]);
    }
    if is_singular(Series::D, x) {
        let (i, j) = choose|i: int, j: int|
            0 <= i < j < x.len() && #[trigger] abs_i64(x[i]) == #[trigger] abs_i64(x[j]);
        assert(abs_i64(fx[i]) == abs_i64(fx[j]));
    }
    if is_singular(Series::D, fx) {
        let (i, j) = choose|i: int, j: int|
            0 <= i < j < fx.len() && #[trigger] abs_i64(fx[i]) == #[trigger] abs_i64(fx[j]);
        assert(abs_i64(x[i]) == abs_i64(x[j]));
    }
    lemma_flip_weyl_dominant(x);
    lemma_weyl_dominant_bounded(x, 0x1000_0000);
    let d = weyl_dominant_spec(Series::D, x);
    lemma_half_odd(d[r - 1] as int);
    assert(rs_target(Series::D, fx) =~= flip_last(rs_target(Series::D, x)));
    let t = rs_target(Series::D, x);
    assert(t[r - 1] > i64::MIN);
    lemma_flip_involution(t);
    lemma_flip_involution(c);
    if rs_target(Series::D, fx) == flip_last(c) {
        assert(t == c);
    }
}

} // verus!
