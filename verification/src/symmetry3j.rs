//! The classical symmetries of the Wigner 3j symbol.
//!
//! Exchanging two columns, or reversing the signs of all three projections,
//! multiplies the 3j symbol by `(-1)^(j1+j2+j3)`; the radicand is unchanged.
//! The two column exchanges and the sign reversal generate all twelve
//! classical symmetries, which the 3j cache relies on when it stores one
//! representative per orbit and compensates by a sign.
use vstd::prelude::*;

use crate::exact::sgn;
use crate::primefactor::{series_frac, series_upto};
use crate::su2::{
    best3j, delta_sq, eps3j, fact, image3j, lemma_best3j_is_max, neg_one_pow, perm3_odd, regge3j_rep, racah3j_kmax, racah3j_kmin, racah3j_params, racah3j_radical,
    racah3j_term, racah3j_terms, three_j_admissible, three_j_series, three_j_value,
};

verus! {

/// `series_upto` reads only the first `k` terms.
proof fn lemma_series_prefix(t: Seq<(int, int)>, u: Seq<(int, int)>, k: nat)
    requires
        k <= t.len(),
        k <= u.len(),
        forall|j: int| 0 <= j < k ==> t[j] == u[j],
    ensures
        series_upto(t, k) == series_upto(u, k),
    decreases k,
{
    if k > 0 {
        lemma_series_prefix(t, u, (k - 1) as nat);
    }
}

/// A term appended at the back joins the sum.
proof fn lemma_series_push(t: Seq<(int, int)>, y: (int, int))
    ensures
        series_frac(t.push(y)) == (series_frac(t).0 * y.1 + y.0 * series_frac(t).1, series_frac(
            t,
        ).1 * y.1),
{
    lemma_series_prefix(t, t.push(y), t.len());
}

/// A term put in front joins the sum.
proof fn lemma_series_prepend(x: (int, int), t: Seq<(int, int)>)
    ensures
        series_frac(seq![x] + t) == (x.0 * series_frac(t).1 + series_frac(t).0 * x.1, x.1
            * series_frac(t).1),
    decreases t.len(),
{
    if t.len() == 0 {
        assert(seq![x] + t =~= Seq::<(int, int)>::empty().push(x));
        lemma_series_push(Seq::<(int, int)>::empty(), x);
        let (x0, x1) = x;
        assert(0 * x1 + x0 * 1 == x0 * 1 + 0 * x1 && 1 * x1 == x1 * 1) by (nonlinear_arith);
    } else {
        let s = t.drop_last();
        let y = t.last();
        assert(t =~= s.push(y));
        assert(seq![x] + t =~= (seq![x] + s).push(y));
        lemma_series_prepend(x, s);
        lemma_series_push(seq![x] + s, y);
        lemma_series_push(s, y);
        let (n, d) = series_frac(s);
        let (x0, x1) = x;
        let (y0, y1) = y;
        assert((x0 * d + n * x1) * y1 == x0 * d * y1 + n * x1 * y1) by (nonlinear_arith);
        assert(y0 * (x1 * d) == y0 * d * x1) by (nonlinear_arith);
        assert(x0 * (d * y1) == x0 * d * y1) by (nonlinear_arith);
        assert((n * y1 + y0 * d) * x1 == n * x1 * y1 + y0 * d * x1) by (nonlinear_arith);
        assert((x1 * d) * y1 == x1 * (d * y1)) by (nonlinear_arith);
    }
}

/// Summing the terms of `t` in reverse order, each numerator multiplied by
/// the unit `c`, gives `c` times the sum of `t` over the same denominator.
proof fn lemma_series_reflect(t: Seq<(int, int)>, u: Seq<(int, int)>, c: int)
    requires
        c == 1 || c == -1,
        u.len() == t.len(),
        forall|i: int|
            0 <= i < t.len() ==> #[trigger] u[i] == (c * t[t.len() - 1 - i].0, t[t.len() - 1
                - i].1),
    ensures
        series_frac(u) == (c * series_frac(t).0, series_frac(t).1),
    decreases t.len(),
{
    if t.len() == 0 {
        assert(series_frac(u) == (0int, 1int));
        assert(c * 0 == 0) by (nonlinear_arith);
    } else {
        let s = t.drop_last();
        let y = t.last();
        let u1 = u.subrange(1, u.len() as int);
        assert(t =~= s.push(y));
        assert(u =~= seq![u[0]] + u1);
        assert forall|i: int| 0 <= i < s.len() implies #[trigger] u1[i] == (c * s[s.len() - 1
            - i].0, s[s.len() - 1 - i].1) by {
            assert(u1[i] == u[i + 1]);
        }
        lemma_series_reflect(s, u1, c);
        lemma_series_prepend(u[0], u1);
        lemma_series_push(s, y);
        assert(u[0] == (c * y.0, y.1));
        let (n, d) = series_frac(s);
        let (y0, y1) = y;
        assert((c * y0) * d + (c * n) * y1 == c * (n * y1 + y0 * d)) by (nonlinear_arith);
        assert(y1 * d == d * y1) by (nonlinear_arith);
    }
}

/// `(-1)^x (-1)^y = (-1)^z` when `x + y - z` is even.
proof fn lemma_neg_one_pow_mul(x: int, y: int, z: int)
    requires
        (x + y - z) % 2 == 0,
    ensures
        neg_one_pow(x) * neg_one_pow(y) == neg_one_pow(z),
{
}

/// A unit `e` commutes with the sign: `sgn(e x) = e sgn(x)`.
proof fn lemma_sgn_unit(e: int, x: int)
    requires
        e == 1 || e == -1,
    ensures
        sgn(e * x) == e * sgn(x),
{
    if e == 1 {
        assert(e * x == x);
    } else {
        assert(e * x == -x);
    }
}

/// Reflecting the summation index, `k ↦ c - k`, between two parameter sets
/// whose terms carry the same denominators keeps the 3j sum up to the sign
/// `(-1)^c`.
proof fn lemma_terms_reflect(p: Seq<int>, q: Seq<int>, c: int)
    requires
        racah3j_kmin(q) == c - racah3j_kmax(p),
        racah3j_kmax(q) == c - racah3j_kmin(p),
        forall|k: int|
            racah3j_kmin(p) <= k <= racah3j_kmax(p) ==> #[trigger] racah3j_term(q, c - k).1
                == racah3j_term(p, k).1,
    ensures
        series_frac(racah3j_terms(q)) == (neg_one_pow(c) * series_frac(racah3j_terms(p)).0,
        series_frac(racah3j_terms(p)).1),
{
    let t = racah3j_terms(p);
    let u = racah3j_terms(q);
    let lo = racah3j_kmin(p);
    let hi = racah3j_kmax(p);
    assert forall|i: int| 0 <= i < t.len() implies #[trigger] u[i] == (neg_one_pow(c) * t[t.len()
        - 1 - i].0, t[t.len() - 1 - i].1) by {
        let k = hi - i;
        assert(t.len() == hi - lo + 1);
        assert(t[t.len() - 1 - i] == racah3j_term(p, k));
        assert(u[i] == racah3j_term(q, c - k));
        lemma_neg_one_pow_mul(c, k, c - k);
        assert(neg_one_pow(c - k) == neg_one_pow(c) * neg_one_pow(k));
    }
    lemma_series_reflect(t, u, neg_one_pow(c));
}

/// Three rearrangements of a product of six factors.
proof fn lemma_product6(a: int, b: int, c: int, d: int, e: int, f: int)
    ensures
        a * b * c * d * e * f == b * a * f * e * d * c,
        a * b * c * d * e * f == b * a * e * f * c * d,
        a * b * c * d * e * f == c * e * a * f * b * d,
{
    assert(a * b * c * d * e * f == b * a * c * d * e * f) by (nonlinear_arith);
    assert(b * a * c * d * e * f == b * a * f * d * e * c) by (nonlinear_arith);
    assert(b * a * f * d * e * c == b * a * f * e * d * c) by (nonlinear_arith);
    assert(b * a * c * d * e * f == b * a * e * d * c * f) by (nonlinear_arith);
    assert(b * a * e * d * c * f == b * a * e * f * c * d) by (nonlinear_arith);
    assert(a * b * c * d * e * f == c * b * a * d * e * f) by (nonlinear_arith);
    assert(c * b * a * d * e * f == c * e * a * d * b * f) by (nonlinear_arith);
    assert(c * e * a * d * b * f == c * e * a * f * b * d) by (nonlinear_arith);
}

/// Admissibility in doubled units makes every half-sum of the 3j formula
/// exact.
proof fn lemma_three_j_parities(d1: u32, d2: u32, d3: u32, m1: i32, m2: i32, m3: i32)
    requires
        three_j_admissible(d1, d2, d3, m1, m2, m3),
    ensures
        (d1 + d2 - d3) % 2 == 0,
        (d1 - d2 + d3) % 2 == 0,
        (-d1 + d2 + d3) % 2 == 0,
        (d1 + d2 + d3) % 2 == 0,
        (d1 + m1) % 2 == 0,
        (d1 - m1) % 2 == 0,
        (d2 + m2) % 2 == 0,
        (d2 - m2) % 2 == 0,
        (d3 + m3) % 2 == 0,
        (d3 - m3) % 2 == 0,
        (d1 - d2 - m3) % 2 == 0,
{
}

/// The combined value relation once the sum and the radical are known.
proof fn lemma_value_relation(
    s0: int,
    s1: int,
    r0: int,
    r1: int,
    x: int,
    y: int,
    c: int,
    jsum: int,
)
    requires
        (y + c - jsum - x) % 2 == 0,
    ensures
        ({
            let e = neg_one_pow(c);
            let t0 = e * s0;
            (sgn(neg_one_pow(y) * t0), t0 * t0 * r0, s1 * s1 * r1) == (neg_one_pow(jsum) * sgn(
                neg_one_pow(x) * s0,
            ), s0 * s0 * r0, s1 * s1 * r1)
        }),
{
    let e = neg_one_pow(c);
    lemma_neg_one_pow_mul(y, c, jsum + x);
    lemma_neg_one_pow_mul(jsum, x, jsum + x);
    let u = neg_one_pow(y) * e;
    assert(u == neg_one_pow(jsum) * neg_one_pow(x));
    assert(neg_one_pow(y) * (e * s0) == (neg_one_pow(jsum) * neg_one_pow(x)) * s0) by (
    nonlinear_arith)
        requires
            neg_one_pow(y) * e == neg_one_pow(jsum) * neg_one_pow(x),
    ;
    assert((neg_one_pow(jsum) * neg_one_pow(x)) * s0 == neg_one_pow(jsum) * (neg_one_pow(x) * s0))
        by (nonlinear_arith);
    lemma_sgn_unit(neg_one_pow(jsum), neg_one_pow(x) * s0);
    assert((e * s0) * (e * s0) * r0 == s0 * s0 * r0) by (nonlinear_arith)
        requires
            e == 1 || e == -1,
    ;
}

/// Exchanging the first two columns, `(j1 j2 j3; m1 m2 m3) ↦
/// (j2 j1 j3; m2 m1 m3)`, keeps admissibility and multiplies the 3j symbol
/// by `(-1)^(j1+j2+j3)`, leaving its radicand unchanged.
pub proof fn lemma_three_j_swap_columns_12(d1: u32, d2: u32, d3: u32, m1: i32, m2: i32, m3: i32)
    ensures
        three_j_admissible(d2, d1, d3, m2, m1, m3) == three_j_admissible(d1, d2, d3, m1, m2, m3),
        three_j_admissible(d1, d2, d3, m1, m2, m3) ==> three_j_value(
            d2 as int,
            d1 as int,
            d3 as int,
            m2 as int,
            m1 as int,
            m3 as int,
        ) == ({
            let v = three_j_value(d1 as int, d2 as int, d3 as int, m1 as int, m2 as int, m3 as int);
            (neg_one_pow((d1 + d2 + d3) / 2) * v.0, v.1, v.2)
        }),
{
    if three_j_admissible(d1, d2, d3, m1, m2, m3) {
        lemma_three_j_parities(d1, d2, d3, m1, m2, m3);
        let (a1, a2, a3, b1, b2, b3) = (d1 as int, d2 as int, d3 as int, m1 as int, m2 as int, m3 as int);
        let p = racah3j_params(a1, a2, a3, b1, b2);
        let q = racah3j_params(a2, a1, a3, b2, b1);
        let c = p[0];
        assert(q[0] == p[0]);
        assert(q[1] == p[0] + p[4]);
        assert(q[2] == p[0] + p[3]);
        assert(q[3] == p[2] - p[0]);
        assert(q[4] == p[1] - p[0]);
        assert forall|k: int|
            racah3j_kmin(p) <= k <= racah3j_kmax(p) implies #[trigger] racah3j_term(q, c - k).1
            == racah3j_term(p, k).1 by {
            lemma_product6(
                fact(k),
                fact(p[0] - k),
                fact(p[1] - k),
                fact(p[2] - k),
                fact(k + p[3]),
                fact(k + p[4]),
            );
        }
        lemma_terms_reflect(p, q, c);
        let (n1, e1) = delta_sq(a1, a2, a3);
        let (n2, e2) = delta_sq(a2, a1, a3);
        let (f1, f2, f3) = (fact((a1 + a2 - a3) / 2), fact((a1 - a2 + a3) / 2), fact((-a1 + a2 + a3) / 2));
        assert(n2 == f1 * f3 * f2);
        assert(f1 * f3 * f2 == f1 * f2 * f3) by (nonlinear_arith);
        let (g1, h1, g2, h2, g3, h3) = (
            fact((a1 + b1) / 2),
            fact((a1 - b1) / 2),
            fact((a2 + b2) / 2),
            fact((a2 - b2) / 2),
            fact((a3 + b3) / 2),
            fact((a3 - b3) / 2),
        );
        assert(n1 * g2 * h2 * g1 * h1 * g3 * h3 == n1 * g1 * h1 * g2 * h2 * g3 * h3) by (
        nonlinear_arith);
        assert(racah3j_radical(a2, a1, a3, b2, b1, b3) == racah3j_radical(a1, a2, a3, b1, b2, b3));
        let (s0, s1) = three_j_series(a1, a2, a3, b1, b2);
        let (r0, r1) = racah3j_radical(a1, a2, a3, b1, b2, b3);
        lemma_value_relation(
            s0,
            s1,
            r0,
            r1,
            (a1 - a2 - b3) / 2,
            (a2 - a1 - b3) / 2,
            c,
            (a1 + a2 + a3) / 2,
        );
    }
}

/// Exchanging the last two columns, `(j1 j2 j3; m1 m2 m3) ↦
/// (j1 j3 j2; m1 m3 m2)`, keeps admissibility and multiplies the 3j symbol
/// by `(-1)^(j1+j2+j3)`, leaving its radicand unchanged.
#[verifier::spinoff_prover]
#[verifier::rlimit(50)]
pub proof fn lemma_three_j_swap_columns_23(d1: u32, d2: u32, d3: u32, m1: i32, m2: i32, m3: i32)
    ensures
        three_j_admissible(d1, d3, d2, m1, m3, m2) == three_j_admissible(d1, d2, d3, m1, m2, m3),
        three_j_admissible(d1, d2, d3, m1, m2, m3) ==> three_j_value(
            d1 as int,
            d3 as int,
            d2 as int,
            m1 as int,
            m3 as int,
            m2 as int,
        ) == ({
            let v = three_j_value(d1 as int, d2 as int, d3 as int, m1 as int, m2 as int, m3 as int);
            (neg_one_pow((d1 + d2 + d3) / 2) * v.0, v.1, v.2)
        }),
{
    if three_j_admissible(d1, d2, d3, m1, m2, m3) {
        lemma_three_j_parities(d1, d2, d3, m1, m2, m3);
        let (a1, a2, a3, b1, b2, b3) = (d1 as int, d2 as int, d3 as int, m1 as int, m2 as int, m3 as int);
        let p = racah3j_params(a1, a2, a3, b1, b2);
        let q = racah3j_params(a1, a3, a2, b1, b3);
        let c = p[1];
        assert(q[0] == p[1] + p[3]);
        assert(q[1] == p[1]);
        assert(q[2] == p[1] + p[4]);
        assert(q[3] == p[0] - p[1]);
        assert(q[4] == p[2] - p[1]);
        assert forall|k: int|
            racah3j_kmin(p) <= k <= racah3j_kmax(p) implies #[trigger] racah3j_term(q, c - k).1
            == racah3j_term(p, k).1 by {
            lemma_product6(
                fact(k),
                fact(p[0] - k),
                fact(p[1] - k),
                fact(p[2] - k),
                fact(k + p[3]),
                fact(k + p[4]),
            );
        }
        lemma_terms_reflect(p, q, c);
        let (n1, e1) = delta_sq(a1, a2, a3);
        let (n2, e2) = delta_sq(a1, a3, a2);
        let (f1, f2, f3) = (fact((a1 + a2 - a3) / 2), fact((a1 - a2 + a3) / 2), fact((-a1 + a2 + a3) / 2));
        assert(n2 == f2 * f1 * f3);
        assert(f2 * f1 * f3 == f1 * f2 * f3) by (nonlinear_arith);
        let (g1, h1, g2, h2, g3, h3) = (
            fact((a1 + b1) / 2),
            fact((a1 - b1) / 2),
            fact((a2 + b2) / 2),
            fact((a2 - b2) / 2),
            fact((a3 + b3) / 2),
            fact((a3 - b3) / 2),
        );
        assert(n1 * g1 * h1 * g3 * h3 * g2 * h2 == n1 * g1 * h1 * g2 * h2 * g3 * h3) by (
        nonlinear_arith);
        assert(racah3j_radical(a1, a3, a2, b1, b3, b2) == racah3j_radical(a1, a2, a3, b1, b2, b3));
        let (s0, s1) = three_j_series(a1, a2, a3, b1, b2);
        let (r0, r1) = racah3j_radical(a1, a2, a3, b1, b2, b3);
        lemma_value_relation(
            s0,
            s1,
            r0,
            r1,
            (a1 - a2 - b3) / 2,
            (a1 - a3 - b2) / 2,
            c,
            (a1 + a2 + a3) / 2,
        );
    }
}

/// Reversing the signs of all three projections, `(j1 j2 j3; m1 m2 m3) ↦
/// (j1 j2 j3; -m1 -m2 -m3)`, keeps admissibility and multiplies the 3j
/// symbol by `(-1)^(j1+j2+j3)`, leaving its radicand unchanged.
#[verifier::spinoff_prover]
#[verifier::rlimit(50)]
pub proof fn lemma_three_j_flip_projections(d1: u32, d2: u32, d3: u32, m1: i32, m2: i32, m3: i32)
    ensures
        m1 > i32::MIN && m2 > i32::MIN && m3 > i32::MIN ==> three_j_admissible(
            d1,
            d2,
            d3,
            -m1 as i32,
            -m2 as i32,
            -m3 as i32,
        ) == three_j_admissible(d1, d2, d3, m1, m2, m3),
        three_j_admissible(d1, d2, d3, m1, m2, m3) ==> three_j_value(
            d1 as int,
            d2 as int,
            d3 as int,
            -m1,
            -m2,
            -m3,
        ) == ({
            let v = three_j_value(d1 as int, d2 as int, d3 as int, m1 as int, m2 as int, m3 as int);
            (neg_one_pow((d1 + d2 + d3) / 2) * v.0, v.1, v.2)
        }),
{
    if three_j_admissible(d1, d2, d3, m1, m2, m3) {
        lemma_three_j_parities(d1, d2, d3, m1, m2, m3);
        let (a1, a2, a3, b1, b2, b3) = (d1 as int, d2 as int, d3 as int, m1 as int, m2 as int, m3 as int);
        let p = racah3j_params(a1, a2, a3, b1, b2);
        let q = racah3j_params(a1, a2, a3, -b1, -b2);
        let c = p[0];
        assert(q[0] == p[0]);
        assert(q[1] == p[0] + p[3]);
        assert(q[2] == p[0] + p[4]);
        assert(q[3] == p[1] - p[0]);
        assert(q[4] == p[2] - p[0]);
        assert forall|k: int|
            racah3j_kmin(p) <= k <= racah3j_kmax(p) implies #[trigger] racah3j_term(q, c - k).1
            == racah3j_term(p, k).1 by {
            lemma_product6(
                fact(k),
                fact(p[0] - k),
                fact(p[1] - k),
                fact(p[2] - k),
                fact(k + p[3]),
                fact(k + p[4]),
            );
        }
        lemma_terms_reflect(p, q, c);
        let (n1, e1) = delta_sq(a1, a2, a3);
        let (g1, h1, g2, h2, g3, h3) = (
            fact((a1 + b1) / 2),
            fact((a1 - b1) / 2),
            fact((a2 + b2) / 2),
            fact((a2 - b2) / 2),
            fact((a3 + b3) / 2),
            fact((a3 - b3) / 2),
        );
        assert(n1 * h1 * g1 * h2 * g2 * h3 * g3 == n1 * g1 * h1 * g2 * h2 * g3 * h3) by (
        nonlinear_arith);
        assert(racah3j_radical(a1, a2, a3, -b1, -b2, -b3) == racah3j_radical(a1, a2, a3, b1, b2, b3));
        let (s0, s1) = three_j_series(a1, a2, a3, b1, b2);
        let (r0, r1) = racah3j_radical(a1, a2, a3, b1, b2, b3);
        lemma_value_relation(
            s0,
            s1,
            r0,
            r1,
            (a1 - a2 - b3) / 2,
            (a1 - a2 + b3) / 2,
            c,
            (a1 + a2 + a3) / 2,
        );
    }
}

/// The labels `(d1 d2 d3; m1 m2 m3)` with their columns permuted by the
/// permutation `p` of the enumeration [`perm3`](crate::su2::perm3).
pub open spec fn permuted3j(d1: u32, d2: u32, d3: u32, m1: i32, m2: i32, m3: i32, p: int) -> (
    u32,
    u32,
    u32,
    i32,
    i32,
    i32,
) {
    if p == 0 {
        (d1, d2, d3, m1, m2, m3)
    } else if p == 1 {
        (d1, d3, d2, m1, m3, m2)
    } else if p == 2 {
        (d2, d1, d3, m2, m1, m3)
    } else if p == 3 {
        (d2, d3, d1, m2, m3, m1)
    } else if p == 4 {
        (d3, d1, d2, m3, m1, m2)
    } else {
        (d3, d2, d1, m3, m2, m1)
    }
}

/// A column permutation keeps admissibility and multiplies the 3j symbol by
/// `(-1)^(j1+j2+j3)` when it is odd.
proof fn lemma_three_j_permute(d1: u32, d2: u32, d3: u32, m1: i32, m2: i32, m3: i32, p: int)
    requires
        three_j_admissible(d1, d2, d3, m1, m2, m3),
        0 <= p < 6,
    ensures
        ({
            let (e1, e2, e3, n1, n2, n3) = permuted3j(d1, d2, d3, m1, m2, m3, p);
            let v = three_j_value(d1 as int, d2 as int, d3 as int, m1 as int, m2 as int, m3 as int);
            let s = if perm3_odd(p) {
                neg_one_pow((d1 + d2 + d3) / 2)
            } else {
                1
            };
            &&& three_j_admissible(e1, e2, e3, n1, n2, n3)
            &&& three_j_value(e1 as int, e2 as int, e3 as int, n1 as int, n2 as int, n3 as int)
                == (s * v.0, v.1, v.2)
        }),
{
    let j = (d1 + d2 + d3) / 2;
    let e = neg_one_pow(j);
    let v = three_j_value(d1 as int, d2 as int, d3 as int, m1 as int, m2 as int, m3 as int);
    assert(e * (e * v.0) == v.0);
    if p == 0 {
        assert(1 * v.0 == v.0);
    } else if p == 1 {
        lemma_three_j_swap_columns_23(d1, d2, d3, m1, m2, m3);
    } else if p == 2 {
        lemma_three_j_swap_columns_12(d1, d2, d3, m1, m2, m3);
    } else if p == 3 {
        lemma_three_j_swap_columns_12(d1, d2, d3, m1, m2, m3);
        lemma_three_j_swap_columns_23(d2, d1, d3, m2, m1, m3);
        assert(1 * v.0 == v.0);
    } else if p == 4 {
        lemma_three_j_swap_columns_23(d1, d2, d3, m1, m2, m3);
        lemma_three_j_swap_columns_12(d1, d3, d2, m1, m3, m2);
        assert(1 * v.0 == v.0);
    } else {
        lemma_three_j_swap_columns_12(d1, d2, d3, m1, m2, m3);
        lemma_three_j_swap_columns_23(d2, d1, d3, m2, m1, m3);
        lemma_three_j_swap_columns_12(d2, d3, d1, m2, m3, m1);
        assert(e * (e * (e * v.0)) == e * v.0);
    }
}

/// The image of a label set under group element `g` is the permuted label
/// set, with its projections negated when `g` is odd.
proof fn lemma_image_labels(d1: u32, d2: u32, d3: u32, m1: i32, m2: i32, m3: i32, g: int)
    requires
        0 <= g < 12,
    ensures
        ({
            let (e1, e2, e3, n1, n2, n3) = permuted3j(d1, d2, d3, m1, m2, m3, g / 2);
            let img = image3j(
                seq![d1 as int, d2 as int, d3 as int],
                seq![m1 as int, m2 as int, m3 as int],
                g,
            );
            &&& img.0 == seq![e1 as int, e2 as int, e3 as int]
            &&& img.1 == if g % 2 == 1 {
                seq![-n1, -n2, -n3]
            } else {
                seq![n1 as int, n2 as int, n3 as int]
            }
        }),
{
    let djs = seq![d1 as int, d2 as int, d3 as int];
    let dms = seq![m1 as int, m2 as int, m3 as int];
    let (e1, e2, e3, n1, n2, n3) = permuted3j(d1, d2, d3, m1, m2, m3, g / 2);
    let img = image3j(djs, dms, g);
    assert(img.0 =~= seq![e1 as int, e2 as int, e3 as int]);
    if g % 2 == 1 {
        assert(img.1 =~= seq![-n1, -n2, -n3]);
    } else {
        assert(img.1 =~= seq![n1 as int, n2 as int, n3 as int]);
    }
}

/// The 3j symbol at the image of an admissible label set under group
/// element `g` is `eps3j(g)` times the symbol of the label set.
#[verifier::spinoff_prover]
#[verifier::rlimit(60)]
proof fn lemma_image_value(d1: u32, d2: u32, d3: u32, m1: i32, m2: i32, m3: i32, g: int)
    requires
        three_j_admissible(d1, d2, d3, m1, m2, m3),
        0 <= g < 12,
    ensures
        ({
            let djs = seq![d1 as int, d2 as int, d3 as int];
            let img = image3j(djs, seq![m1 as int, m2 as int, m3 as int], g);
            let v = three_j_value(d1 as int, d2 as int, d3 as int, m1 as int, m2 as int, m3 as int);
            three_j_value(img.0[0], img.0[1], img.0[2], img.1[0], img.1[1], img.1[2]) == (eps3j(
                djs,
                g,
            ) * v.0, v.1, v.2)
        }),
{
    let djs = seq![d1 as int, d2 as int, d3 as int];
    let p = g / 2;
    let e = neg_one_pow((d1 + d2 + d3) / 2);
    let v = three_j_value(d1 as int, d2 as int, d3 as int, m1 as int, m2 as int, m3 as int);
    lemma_three_j_permute(d1, d2, d3, m1, m2, m3, p);
    lemma_image_labels(d1, d2, d3, m1, m2, m3, g);
    let (e1, e2, e3, n1, n2, n3) = permuted3j(d1, d2, d3, m1, m2, m3, p);
    let s = if perm3_odd(p) {
        e
    } else {
        1
    };
    assert(e1 + e2 + e3 == d1 + d2 + d3);
    let img = image3j(djs, seq![m1 as int, m2 as int, m3 as int], g);
    let w = three_j_value(e1 as int, e2 as int, e3 as int, n1 as int, n2 as int, n3 as int);
    assert(w == (s * v.0, v.1, v.2));
    assert(img.0[0] == e1 && img.0[1] == e2 && img.0[2] == e3);
    if g % 2 == 1 {
        assert(img.1[0] == -n1 && img.1[1] == -n2 && img.1[2] == -n3);
        lemma_three_j_flip_projections(e1, e2, e3, n1, n2, n3);
        assert(three_j_value(e1 as int, e2 as int, e3 as int, -n1, -n2, -n3) == (e * w.0, w.1, w.2));
        assert(eps3j(djs, g) == e * s);
        assert(e * (s * v.0) == (e * s) * v.0) by (nonlinear_arith);
    } else {
        assert(img.1[0] == n1 && img.1[1] == n2 && img.1[2] == n3);
        assert(eps3j(djs, g) == s);
    }
}

/// The canonical 3j representative carries the input's value up to its
/// phase: for an admissible `(j1 j2 j3; m1 m2 m3)` with representative
/// `(rep, eps)` = [`regge3j_rep`], the 3j symbol at `rep` is `eps` times the
/// 3j symbol of the input, with the same radicand. Hence one stored value
/// per canonical class, moved by the phase, serves every member of the
/// class.
pub proof fn lemma_three_j_canonical_phase(d1: u32, d2: u32, d3: u32, m1: i32, m2: i32, m3: i32)
    requires
        three_j_admissible(d1, d2, d3, m1, m2, m3),
    ensures
        ({
            let (rep, eps) = regge3j_rep(d1, d2, d3, m1, m2, m3);
            let v = three_j_value(d1 as int, d2 as int, d3 as int, m1 as int, m2 as int, m3 as int);
            three_j_value(rep.0[0], rep.0[1], rep.0[2], rep.1[0], rep.1[1], rep.1[2]) == (eps
                * v.0, v.1, v.2)
        }),
{
    let djs = seq![d1 as int, d2 as int, d3 as int];
    let dms = seq![m1 as int, m2 as int, m3 as int];
    lemma_best3j_is_max(djs, dms, 12);
    lemma_image_value(d1, d2, d3, m1, m2, m3, best3j(djs, dms, 12));
}

} // verus!
