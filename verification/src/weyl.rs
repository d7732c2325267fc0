//! Root systems and Weyl-group actions of the B, C, D series in the
//! orthonormal ε-basis, in exact integer arithmetic.
//!
//! Roots and weights are carried as their ε-coefficient vectors (`2e_i` is a
//! `2` in slot `i`). `ρ`-shifted vectors are carried at twice scale so that
//! `B`'s half-integer `ρ` stays integral.

use vstd::prelude::*;
use crate::bcd::Series;
use crate::order::{le_i64, lemma_swap_multiset, sort_ascending};
use vstd::multiset::Multiset;

verus! {

/// Bound on the absolute value of the weight coordinates the weight
/// algorithms accept (`2^24`).
pub const WEIGHT_BOUND: i64 = 16777216;

/// Bound on the rank the weight algorithms accept.
pub const RANK_BOUND: usize = 1024;

/// Bound on the coordinates an inner product may take (`2^26`): with at most
/// [`RANK_BOUND`] terms, every inner product fits in `i64`.
pub const DOT_BOUND: i64 = 67108864;

/// Every coordinate of `v` lies in `[-b, b]`.
pub open spec fn bounded(v: Seq<i64>, b: int) -> bool {
    forall|i: int| 0 <= i < v.len() ==> -b <= #[trigger] v[i] <= b
}

/// The Euclidean inner product `Σ u_i v_i`.
pub open spec fn dot_spec(u: Seq<i64>, v: Seq<i64>) -> int
    decreases u.len(),
{
    if u.len() == 0 {
        0
    } else {
        dot_spec(u.drop_last(), v) + u.last() * v[u.len() - 1]
    }
}

proof fn lemma_dot_prefix(u: Seq<i64>, v: Seq<i64>, i: int)
    requires
        0 <= i < u.len(),
    ensures
        dot_spec(u.subrange(0, i + 1), v) == dot_spec(u.subrange(0, i), v) + u[i] * v[i],
{
    assert(u.subrange(0, i + 1).drop_last() =~= u.subrange(0, i));
}

proof fn lemma_product_bound(x: int, y: int, b: int)
    requires
        -b <= x <= b,
        -b <= y <= b,
        b >= 0,
    ensures
        -(b * b) <= x * y <= b * b,
{
    assert(-(b * b) <= x * y <= b * b) by (nonlinear_arith)
        requires
            -b <= x <= b,
            -b <= y <= b,
            b >= 0,
    ;
}

/// The inner product of two ε-basis integer vectors.
pub fn dot(u: &[i64], v: &[i64]) -> (d: i64)
    requires
        u@.len() == v@.len(),
        u@.len() <= RANK_BOUND,
        bounded(u@, DOT_BOUND as int),
        bounded(v@, DOT_BOUND as int),
    ensures
        d == dot_spec(u@, v@),
{
    let mut acc: i64 = 0;
    let mut i: usize = 0;
    proof {
        assert(u@.subrange(0, 0) =~= Seq::<i64>::empty());
    }
    while i < u.len()
        invariant
            i <= u@.len(),
            u@.len() == v@.len(),
            u@.len() <= RANK_BOUND,
            bounded(u@, DOT_BOUND as int),
            bounded(v@, DOT_BOUND as int),
            acc == dot_spec(u@.subrange(0, i as int), v@),
            -(i * 4503599627370496) <= acc <= i * 4503599627370496,
        decreases u@.len() - i,
    {
        proof {
            lemma_dot_prefix(u@, v@, i as int);
            lemma_product_bound(u@[i as int] as int, v@[i as int] as int, DOT_BOUND as int);
            assert(DOT_BOUND * DOT_BOUND == 4503599627370496);
        }
        acc = acc + u[i] * v[i];
        i = i + 1;
    }
    proof {
        assert(u@.subrange(0, u@.len() as int) =~= u@);
    }
    acc
}

/// The inner product of a vector with entries in `[-2, 2]` and an arbitrary
/// `i64` vector, in `i128` (every partial sum stays below `2^75`).
pub fn dot_wide(u: &[i64], v: &[i64]) -> (d: i128)
    requires
        u@.len() == v@.len(),
        u@.len() <= RANK_BOUND,
        bounded(u@, 2),
    ensures
        d == dot_spec(u@, v@),
{
    let mut acc: i128 = 0;
    let mut i: usize = 0;
    proof {
        assert(u@.subrange(0, 0) =~= Seq::<i64>::empty());
    }
    while i < u.len()
        invariant
            u@.len() == v@.len(),
            u@.len() <= RANK_BOUND,
            bounded(u@, 2),
            i <= u@.len(),
            acc == dot_spec(u@.subrange(0, i as int), v@),
            -(i * 0x2_0000_0000_0000_0000) <= acc <= i * 0x2_0000_0000_0000_0000,
        decreases u@.len() - i,
    {
        proof {
            lemma_dot_prefix(u@, v@, i as int);
            let x = u@[i as int] as int;
            let y = v@[i as int] as int;
            assert(-0x2_0000_0000_0000_0000 <= x * y <= 0x2_0000_0000_0000_0000) by (nonlinear_arith)
                requires
                    -2 <= x <= 2,
                    -0x8000_0000_0000_0000 <= y <= 0x8000_0000_0000_0000,
            ;
        }
        let t: i128 = (u[i] as i128) * (v[i] as i128);
        acc = acc + t;
        i = i + 1;
    }
    proof {
        assert(u@.subrange(0, u@.len() as int) =~= u@);
    }
    acc
}

/// Entry `i` (`0`-based) of `2ρ` in the ε-basis: `B: 2r-2i-1`, `C: 2r-2i`,
/// `D: 2r-2i-2`.
pub open spec fn two_rho_entry(series: Series, r: int, i: int) -> int {
    match series {
        Series::B => 2 * r - 2 * i - 1,
        Series::C => 2 * r - 2 * i,
        Series::D => 2 * r - 2 * i - 2,
    }
}

/// `2ρ`, twice the Weyl vector, in the ε-basis.
pub fn two_rho(series: Series, r: usize) -> (t: Vec<i64>)
    requires
        r <= RANK_BOUND,
    ensures
        t@.len() == r,
        forall|i: int| 0 <= i < r ==> t@[i] == two_rho_entry(series, r as int, i),
        bounded(t@, 2 * RANK_BOUND),
{
    let mut t: Vec<i64> = Vec::new();
    let rr = r as i64;
    let mut i: usize = 0;
    while i < r
        invariant
            i <= r <= RANK_BOUND,
            rr == r,
            t@.len() == i,
            forall|j: int| 0 <= j < i ==> t@[j] == two_rho_entry(series, r as int, j),
        decreases r - i,
    {
        let ii = i as i64;
        let e = match series {
            Series::B => 2 * rr - 2 * ii - 1,
            Series::C => 2 * rr - 2 * ii,
            Series::D => 2 * rr - 2 * ii - 2,
        };
        t.push(e);
        i = i + 1;
    }
    t
}

/// The unit-like vector with `c` in slot `i` and `d` in slot `j` (`i != j`),
/// or `c` in slot `i` alone when `i == j`.
pub open spec fn root_vec(r: int, i: int, j: int, c: int, d: int) -> Seq<i64> {
    Seq::new(
        r as nat,
        |k: int|
            if k == i {
                c as i64
            } else if k == j {
                d as i64
            } else {
                0i64
            },
    )
}

/// Whether `v` is a positive root of the series at rank `r`: `e_i − e_j`,
/// `e_i + e_j` (`i<j`), plus `e_i` for `B` and `2e_i` for `C`.
pub open spec fn is_positive_root(series: Series, r: int, v: Seq<i64>) -> bool {
    ||| exists|i: int, j: int| 0 <= i < j < r && v == #[trigger] root_vec(r, i, j, 1, -1)
    ||| exists|i: int, j: int| 0 <= i < j < r && v == #[trigger] root_vec(r, i, j, 1, 1)
    ||| series == Series::B && exists|i: int| 0 <= i < r && v == #[trigger] root_vec(r, i, i, 1, 1)
    ||| series == Series::C && exists|i: int| 0 <= i < r && v == #[trigger] root_vec(r, i, i, 2, 2)
}

fn make_root(r: usize, i: usize, j: usize, c: i64, d: i64) -> (v: Vec<i64>)
    requires
        i < r,
        j < r,
    ensures
        v@ == root_vec(r as int, i as int, j as int, c as int, d as int),
{
    let mut v: Vec<i64> = Vec::new();
    let mut k: usize = 0;
    while k < r
        invariant
            k <= r,
            v@ == root_vec(r as int, i as int, j as int, c as int, d as int).subrange(0, k as int),
        decreases r - k,
    {
        if k == i {
            v.push(c);
        } else if k == j {
            v.push(d);
        } else {
            v.push(0);
        }
        k = k + 1;
        assert(v@ =~= root_vec(r as int, i as int, j as int, c as int, d as int).subrange(
            0,
            k as int,
        ));
    }
    assert(v@ =~= root_vec(r as int, i as int, j as int, c as int, d as int));
    v
}

/// The roots `e_i − e_j`, `e_i + e_j` for a fixed `i` and `i < j' < j`, in
/// order.
pub open spec fn row_roots(r: int, i: int, j: int) -> Seq<Seq<i64>>
    decreases j - i,
{
    if j <= i + 1 {
        Seq::empty()
    } else {
        row_roots(r, i, j - 1).push(root_vec(r, i, j - 1, 1, -1)).push(root_vec(r, i, j - 1, 1, 1))
    }
}

/// The roots `e_i ± e_j` (`i < j`) for `i < k`, row by row.
pub open spec fn pair_roots(r: int, k: int) -> Seq<Seq<i64>>
    decreases k,
{
    if k <= 0 {
        Seq::empty()
    } else {
        pair_roots(r, k - 1) + row_roots(r, k - 1, r)
    }
}

/// The short (`B`: `e_i`) or long (`C`: `2e_i`) roots for `i < k`.
pub open spec fn single_roots(series: Series, r: int, k: int) -> Seq<Seq<i64>>
    decreases k,
{
    if k <= 0 {
        Seq::empty()
    } else {
        let c: int = if series == Series::B {
            1
        } else {
            2
        };
        single_roots(series, r, k - 1).push(root_vec(r, k - 1, k - 1, c, c))
    }
}

/// The positive roots of the series at rank `r`, in the order they are
/// listed: `e_i − e_j`, `e_i + e_j` row by row, then `e_i` (`B`) or `2e_i`
/// (`C`).
pub open spec fn positive_roots_spec(series: Series, r: int) -> Seq<Seq<i64>> {
    pair_roots(r, r) + if series == Series::D {
        Seq::<Seq<i64>>::empty()
    } else {
        single_roots(series, r, r)
    }
}

/// The views of a list of vectors.
pub open spec fn vec_views(s: Seq<Vec<i64>>) -> Seq<Seq<i64>> {
    s.map_values(|v: Vec<i64>| v@)
}

/// The inner product with a root vector picks out its one or two non-zero
/// slots.
pub proof fn lemma_dot_root_vec(t: Seq<i64>, r: int, i: int, j: int, c: int, d: int)
    requires
        0 <= r <= t.len(),
        -2 <= c <= 2,
        -2 <= d <= 2,
    ensures
        dot_spec(root_vec(r, i, j, c, d), t) == (if 0 <= i < r {
            c * t[i]
        } else {
            0
        }) + (if j != i && 0 <= j < r {
            d * t[j]
        } else {
            0
        }),
    decreases r,
{
    if r > 0 {
        lemma_dot_root_vec(t, r - 1, i, j, c, d);
        assert(root_vec(r, i, j, c, d).drop_last() =~= root_vec(r - 1, i, j, c, d));
    }
}

/// `2ρ` as a sequence.
pub open spec fn two_rho_seq(series: Series, r: int) -> Seq<i64> {
    Seq::new(r as nat, |i: int| two_rho_entry(series, r, i) as i64)
}

/// Whether every vector of `s` is a positive root of length `r` with
/// coordinates in `[-2, 2]`.
pub open spec fn all_positive_roots(series: Series, r: int, s: Seq<Vec<i64>>) -> bool {
    forall|k: int|
        0 <= k < s.len() ==> {
            &&& is_positive_root(series, r, #[trigger] s[k]@)
            &&& s[k]@.len() == r
            &&& bounded(s[k]@, 2)
        }
}

proof fn lemma_root_vec_bounded(r: int, i: int, j: int, c: int, d: int)
    requires
        -2 <= c <= 2,
        -2 <= d <= 2,
    ensures
        bounded(root_vec(r, i, j, c, d), 2),
{
}

/// The positive roots of the series at rank `r` in the ε-basis: `e_i − e_j`,
/// `e_i + e_j` (`i<j`), then `e_i` for `B` or `2e_i` for `C`.
pub fn positive_roots(series: Series, r: usize) -> (roots: Vec<Vec<i64>>)
    ensures
        all_positive_roots(series, r as int, roots@),
        roots@.len() == r * (r - 1) + if series == Series::D {
            0
        } else {
            r as int
        },
        vec_views(roots@) == positive_roots_spec(series, r as int),
{
    let mut roots: Vec<Vec<i64>> = Vec::new();
    let mut i: usize = 0;
    assert(vec_views(roots@) =~= pair_roots(r as int, 0));
    while i < r
        invariant
            i <= r,
            all_positive_roots(series, r as int, roots@),
            roots@.len() == i * (2 * r - i - 1),
            vec_views(roots@) == pair_roots(r as int, i as int),
        decreases r - i,
    {
        let mut j: usize = i + 1;
        assert(vec_views(roots@) =~= pair_roots(r as int, i as int) + row_roots(
            r as int,
            i as int,
            j as int,
        ));
        while j < r
            invariant
                i < r,
                i + 1 <= j <= r,
                all_positive_roots(series, r as int, roots@),
                roots@.len() == i * (2 * r - i - 1) + 2 * (j - i - 1),
                vec_views(roots@) == pair_roots(r as int, i as int) + row_roots(
                    r as int,
                    i as int,
                    j as int,
                ),
            decreases r - j,
        {
            let minus = make_root(r, i, j, 1, -1);
            let plus = make_root(r, i, j, 1, 1);
            proof {
                lemma_root_vec_bounded(r as int, i as int, j as int, 1, -1);
                lemma_root_vec_bounded(r as int, i as int, j as int, 1, 1);
            }
            let ghost before = roots@;
            roots.push(minus);
            roots.push(plus);
            proof {
                assert(vec_views(roots@) =~= vec_views(before).push(minus@).push(plus@));
                assert(row_roots(r as int, i as int, j + 1) == row_roots(
                    r as int,
                    i as int,
                    j as int,
                ).push(minus@).push(plus@));
                assert(vec_views(roots@) =~= pair_roots(r as int, i as int) + row_roots(
                    r as int,
                    i as int,
                    j + 1,
                ));
            }
            j = j + 1;
        }
        proof {
            assert(pair_roots(r as int, i + 1) == pair_roots(r as int, i as int) + row_roots(
                r as int,
                i as int,
                r as int,
            ));
        }
        assert(i * (2 * r - i - 1) + 2 * (r - i - 1) == (i + 1) * (2 * r - (i + 1) - 1))
            by (nonlinear_arith);
        i = i + 1;
    }
    assert(r * (2 * r - r - 1) == r * (r - 1)) by (nonlinear_arith);
    match series {
        Series::B | Series::C => {
            let c: i64 = if series == Series::B {
                1
            } else {
                2
            };
            let base = roots.len();
            let mut i: usize = 0;
            assert(vec_views(roots@) =~= pair_roots(r as int, r as int) + single_roots(
                series,
                r as int,
                0,
            ));
            while i < r
                invariant
                    i <= r,
                    c == if series == Series::B {
                        1i64
                    } else {
                        2i64
                    },
                    series != Series::D,
                    all_positive_roots(series, r as int, roots@),
                    roots@.len() == base + i,
                    base == r * (r - 1),
                    vec_views(roots@) == pair_roots(r as int, r as int) + single_roots(
                        series,
                        r as int,
                        i as int,
                    ),
                decreases r - i,
            {
                let e = make_root(r, i, i, c, c);
                proof {
                    lemma_root_vec_bounded(r as int, i as int, i as int, c as int, c as int);
                }
                let ghost before = roots@;
                roots.push(e);
                proof {
                    assert(vec_views(roots@) =~= vec_views(before).push(e@));
                    assert(vec_views(roots@) =~= pair_roots(r as int, r as int) + single_roots(
                        series,
                        r as int,
                        i + 1,
                    ));
                }
                i = i + 1;
            }
        },
        Series::D => {
            assert(vec_views(roots@) =~= positive_roots_spec(series, r as int));
        },
    }
    roots
}


// ---- Weyl-group dominant conjugation ------------------------------------------------

/// `|x|`.
pub open spec fn abs_i64(x: i64) -> i64 {
    if x < 0 {
        (-x) as i64
    } else {
        x
    }
}

/// The coordinatewise absolute values of `v`.
pub open spec fn abs_seq(v: Seq<i64>) -> Seq<i64> {
    Seq::new(v.len(), |i: int| abs_i64(v[i]))
}

/// `s` sorted in non-increasing order.
pub open spec fn sort_desc(s: Seq<i64>) -> Seq<i64> {
    s.sort_by(le_i64()).reverse()
}

/// The number of positions `j ≥ start` with `s[i] < s[j]`.
pub open spec fn count_larger_after(s: Seq<i64>, i: int, start: int) -> nat
    decreases s.len() - start,
{
    if start >= s.len() {
        0
    } else {
        (if s[i] < s[start] {
            1nat
        } else {
            0nat
        }) + count_larger_after(s, i, start + 1)
    }
}

/// The number of pairs `i < j`, `i ≥ start`, with `s[i] < s[j]`: the
/// inversions of `s` against the non-increasing order.
pub open spec fn inversions_from(s: Seq<i64>, start: int) -> nat
    decreases s.len() - start,
{
    if start >= s.len() {
        0
    } else {
        count_larger_after(s, start, start + 1) + inversions_from(s, start + 1)
    }
}

/// The sign of the permutation that sorts `s` into non-increasing order
/// (for distinct entries): `(-1)^inversions`.
pub open spec fn perm_sign(s: Seq<i64>) -> int {
    if inversions_from(s, 0) % 2 == 0 {
        1
    } else {
        -1
    }
}

/// The number of negative coordinates of `v`.
pub open spec fn neg_count(v: Seq<i64>) -> nat
    decreases v.len(),
{
    if v.len() == 0 {
        0
    } else {
        (if v.last() < 0 {
            1nat
        } else {
            0nat
        }) + neg_count(v.drop_last())
    }
}

/// A copy of `v` in non-increasing order, with the sign of the sorting
/// permutation (meaningful when the entries are distinct).
pub fn sort_desc_with_parity(v: &[i64]) -> (res: (Vec<i64>, i32))
    requires
        v@.len() <= RANK_BOUND,
    ensures
        res.0@ == sort_desc(v@),
        res.1 == perm_sign(v@),
{
    let n = v.len();
    let mut inv: usize = 0;
    let mut i: usize = 0;
    while i < n
        invariant
            n == v@.len() <= RANK_BOUND,
            i <= n,
            inv + inversions_from(v@, i as int) == inversions_from(v@, 0),
            inv <= i * n,
        decreases n - i,
    {
        let mut j: usize = i + 1;
        let mut row: usize = 0;
        while j < n
            invariant
                n == v@.len() <= RANK_BOUND,
                i < n,
                i + 1 <= j <= n,
                row + count_larger_after(v@, i as int, j as int) == count_larger_after(
                    v@,
                    i as int,
                    i + 1,
                ),
                row <= j - i - 1,
            decreases n - j,
        {
            if v[i] < v[j] {
                row = row + 1;
            }
            j = j + 1;
        }
        assert(inv + row <= (i + 1) * n) by (nonlinear_arith)
            requires
                inv <= i * n,
                row <= n,
        ;
        assert((i + 1) * n <= 1024 * 1024) by (nonlinear_arith)
            requires
                i + 1 <= n,
                n <= 1024,
        ;
        inv = inv + row;
        i = i + 1;
    }
    let mut asc: Vec<i64> = Vec::new();
    let mut k: usize = 0;
    while k < n
        invariant
            k <= n == v@.len(),
            asc@ == v@.subrange(0, k as int),
        decreases n - k,
    {
        asc.push(v[k]);
        k = k + 1;
    }
    assert(v@.subrange(0, n as int) =~= v@);
    sort_ascending(&mut asc);
    let mut out: Vec<i64> = Vec::new();
    let mut k: usize = 0;
    while k < n
        invariant
            k <= n == asc@.len(),
            asc@ == v@.sort_by(le_i64()),
            out@.len() == k,
            forall|t: int| 0 <= t < k ==> out@[t] == asc@[n - 1 - t],
        decreases n - k,
    {
        out.push(asc[n - 1 - k]);
        k = k + 1;
    }
    assert(out@ =~= sort_desc(v@));
    let sign: i32 = if inv % 2 == 0 {
        1
    } else {
        -1
    };
    (out, sign)
}

/// The coordinatewise absolute values and the number of negative coordinates
/// of `v`.
fn abs_and_negatives(v: &[i64]) -> (res: (Vec<i64>, usize))
    requires
        bounded(v@, i64::MAX as int),
    ensures
        res.0@ == abs_seq(v@),
        res.1 == neg_count(v@),
{
    let mut a: Vec<i64> = Vec::new();
    let mut neg: usize = 0;
    let mut i: usize = 0;
    while i < v.len()
        invariant
            i <= v@.len(),
            bounded(v@, i64::MAX as int),
            a@ == abs_seq(v@.subrange(0, i as int)),
            neg == neg_count(v@.subrange(0, i as int)),
            neg <= i,
        decreases v@.len() - i,
    {
        let x = v[i];
        assert(v@.subrange(0, i + 1).drop_last() =~= v@.subrange(0, i as int));
        if x < 0 {
            a.push(-x);
            neg = neg + 1;
        } else {
            a.push(x);
        }
        i = i + 1;
        assert(a@ =~= abs_seq(v@.subrange(0, i as int)));
    }
    assert(v@.subrange(0, v@.len() as int) =~= v@);
    (a, neg)
}

/// The dominant Weyl-orbit representative of a weight `v`: `|v|` sorted
/// non-increasing, with the last entry negated for `D` when an odd number of
/// coordinates are negative and the smallest `|v_i|` is non-zero (the `D` Weyl
/// group changes an even number of signs).
pub open spec fn weyl_dominant_spec(series: Series, v: Seq<i64>) -> Seq<i64> {
    let s = sort_desc(abs_seq(v));
    let last = s.len() - 1;
    if series == Series::D && neg_count(v) % 2 == 1 && s[last] != 0 {
        s.update(last, (-s[last]) as i64)
    } else {
        s
    }
}

/// The dominant Weyl-orbit representative of a weight `v` (ε-basis).
pub fn weyl_dominant(series: Series, v: &[i64]) -> (d: Vec<i64>)
    requires
        1 <= v@.len() <= RANK_BOUND,
        bounded(v@, i64::MAX as int),
    ensures
        d@ == weyl_dominant_spec(series, v@),
        d@.len() == v@.len(),
{
    let (absv, negcount) = abs_and_negatives(v);
    let (mut sorted, _) = sort_desc_with_parity(absv.as_slice());
    proof {
        absv@.sort_by(le_i64()).lemma_reverse_to_multiset();
        lemma_sorted_entries_nonneg(absv@);
    }
    if series == Series::D && negcount % 2 == 1 {
        let last = sorted.len() - 1;
        if sorted[last] != 0 {
            let x = sorted[last];
            sorted.set(last, -x);
        }
    }
    sorted
}

/// The entries of the sorted absolute values are absolute values, so
/// negating one stays in range.
pub(crate) proof fn lemma_sorted_entries_nonneg(a: Seq<i64>)
    requires
        forall|i: int| 0 <= i < a.len() ==> a[i] >= 0,
    ensures
        forall|i: int| 0 <= i < a.len() ==> sort_desc(a)[i] >= 0,
        sort_desc(a).len() == a.len(),
{
    broadcast use vstd::seq_lib::group_to_multiset_ensures;

    crate::order::lemma_le_i64_total();
    a.lemma_sort_by_ensures(le_i64());
    let t = a.sort_by(le_i64());
    assert(t.len() == a.len()) by {
        assert(t.to_multiset().len() == a.to_multiset().len());
    }
    assert forall|i: int| 0 <= i < a.len() implies sort_desc(a)[i] >= 0 by {
        let k = a.len() - 1 - i;
        let x = t[k];
        assert(sort_desc(a)[i] == x);
        assert(t.contains(x));
        assert(a.contains(x));
    }
}

/// The non-increasing sort of a vector in a box stays in the box.
pub(crate) proof fn lemma_sort_desc_bounded(a: Seq<i64>, b: int)
    requires
        bounded(a, b),
    ensures
        sort_desc(a).len() == a.len(),
        bounded(sort_desc(a), b),
{
    broadcast use vstd::seq_lib::group_to_multiset_ensures;

    crate::order::lemma_le_i64_total();
    a.lemma_sort_by_ensures(le_i64());
    let t = a.sort_by(le_i64());
    assert(t.len() == a.len()) by {
        assert(t.to_multiset().len() == a.to_multiset().len());
    }
    assert forall|i: int| 0 <= i < a.len() implies -b <= #[trigger] sort_desc(a)[i] <= b by {
        let k = a.len() - 1 - i;
        let x = t[k];
        assert(sort_desc(a)[i] == x);
        assert(t.contains(x));
        assert(a.contains(x));
    }
}

/// The dominant representative of a vector in a box stays in the box.
pub(crate) proof fn lemma_weyl_dominant_in_box(series: Series, v: Seq<i64>, b: int)
    requires
        v.len() >= 1,
        bounded(v, b),
        0 <= b < i64::MAX,
    ensures
        weyl_dominant_spec(series, v).len() == v.len(),
        bounded(weyl_dominant_spec(series, v), b),
{
    let a = abs_seq(v);
    assert(bounded(a, b));
    lemma_sort_desc_bounded(a, b);
}

/// The last entry of the non-increasing sort of `a` is its minimum.
pub(crate) proof fn lemma_sort_desc_last_min(a: Seq<i64>)
    requires
        a.len() >= 1,
    ensures
        sort_desc(a).len() == a.len(),
        forall|j: int| 0 <= j < a.len() ==> sort_desc(a)[a.len() - 1] <= #[trigger] a[j],
{
    broadcast use vstd::seq_lib::group_to_multiset_ensures;

    crate::order::lemma_le_i64_total();
    a.lemma_sort_by_ensures(le_i64());
    let t = a.sort_by(le_i64());
    assert(t.len() == a.len()) by {
        assert(t.to_multiset().len() == a.to_multiset().len());
    }
    assert(sort_desc(a)[a.len() - 1] == t[0]);
    assert forall|j: int| 0 <= j < a.len() implies sort_desc(a)[a.len() - 1] <= #[trigger] a[j] by {
        assert(a.contains(a[j]));
        assert(a.to_multiset().contains(a[j]));
        assert(t.to_multiset().contains(a[j]));
        assert(t.contains(a[j]));
        let k = choose|k: int| 0 <= k < t.len() && t[k] == a[j];
        assert(le_i64()(t[0], t[k]));
    }
}

/// Whether the twice-scaled `ρ`-shifted vector `v` lies on a reflection wall:
/// two coordinates equal in absolute value (wall `e_i ± e_j`), or, for `B` and
/// `C`, a zero coordinate (wall `e_i` resp. `2e_i`).
pub open spec fn is_singular(series: Series, v: Seq<i64>) -> bool {
    ||| exists|i: int, j: int|
        0 <= i < j < v.len() && #[trigger] abs_i64(v[i]) == #[trigger] abs_i64(v[j])
    ||| series != Series::D && exists|i: int| 0 <= i < v.len() && #[trigger] v[i] == 0
}

/// `det(w)` of the Weyl element `w` conjugating a regular `v` to the dominant
/// chamber: the sign of the sorting permutation, times `(-1)^{#negatives}` for
/// `B` and `C` (for `D` the sign changes come in pairs).
pub open spec fn conjugation_sign(series: Series, v: Seq<i64>) -> int {
    if series == Series::D || neg_count(v) % 2 == 0 {
        perm_sign(abs_seq(v))
    } else {
        -perm_sign(abs_seq(v))
    }
}

/// The dominant conjugate of a twice-scaled `ρ`-shifted vector `v` together
/// with `det(w) = ±1`, or `None` if `v` is Weyl-singular (it then contributes
/// `0` to the Racah–Speiser sum).
pub fn dominant_conjugate_signed(series: Series, v: &[i64]) -> (res: Option<(Vec<i64>, i32)>)
    requires
        1 <= v@.len() <= RANK_BOUND,
        bounded(v@, i64::MAX as int),
    ensures
        match res {
            None => is_singular(series, v@),
            Some((d, sign)) => {
                &&& !is_singular(series, v@)
                &&& d@ == weyl_dominant_spec(series, v@)
                &&& d@.len() == v@.len()
                &&& sign == conjugation_sign(series, v@)
            },
        },
{
    let (absv, negcount) = abs_and_negatives(v);
    let n = absv.len();
    // Wall e_i ± e_j: two equal absolute values.
    let mut i: usize = 0;
    while i < n
        invariant
            n == absv@.len() == v@.len(),
            absv@ == abs_seq(v@),
            i <= n,
            forall|a: int, b: int| 0 <= a < i && a < b < n ==> absv@[a] != absv@[b],
        decreases n - i,
    {
        let mut j: usize = i + 1;
        while j < n
            invariant
                n == absv@.len() == v@.len(),
                absv@ == abs_seq(v@),
                i < n,
                i + 1 <= j <= n,
                forall|b: int| i < b < j ==> absv@[i as int] != absv@[b],
            decreases n - j,
        {
            if absv[i] == absv[j] {
                assert(abs_i64(v@[i as int]) == abs_i64(v@[j as int]));
                return None;
            }
            j = j + 1;
        }
        i = i + 1;
    }
    let (mut sorted, perm) = sort_desc_with_parity(absv.as_slice());
    proof {
        absv@.sort_by(le_i64()).lemma_reverse_to_multiset();
        lemma_sorted_entries_nonneg(absv@);
    }
    match series {
        Series::B | Series::C => {
            // Wall e_i (B) / 2e_i (C): a zero coordinate.
            let mut k: usize = 0;
            while k < n
                invariant
                    n == absv@.len() == v@.len(),
                    absv@ == abs_seq(v@),
                    bounded(v@, i64::MAX as int),
                    series != Series::D,
                    forall|a: int, b: int| 0 <= a < n && a < b < n ==> absv@[a] != absv@[b],
                    k <= n,
                    forall|b: int| 0 <= b < k ==> v@[b] != 0,
                decreases n - k,
            {
                if absv[k] == 0 {
                    assert(v@[k as int] == 0);
                    assert(is_singular(series, v@));
                    return None;
                }
                k = k + 1;
            }
            let flips: i32 = if negcount % 2 == 0 {
                1
            } else {
                -1
            };
            assert(perm == 1 || perm == -1);
            let sign: i32 = if flips == 1 {
                perm
            } else {
                -perm
            };
            proof {
                assert forall|a: int, b: int| 0 <= a < b < v@.len() implies abs_i64(v@[a])
                    != abs_i64(v@[b]) by {
                    assert(absv@[a] != absv@[b]);
                }
            }
            Some((sorted, sign))
        },
        Series::D => {
            // det(w) = sgn(perm): even sign changes have det +1.
            proof {
                assert forall|a: int, b: int| 0 <= a < b < v@.len() implies abs_i64(v@[a])
                    != abs_i64(v@[b]) by {
                    assert(absv@[a] != absv@[b]);
                }
            }
            let last = sorted.len() - 1;
            if negcount % 2 == 1 && sorted[last] != 0 {
                let x = sorted[last];
                sorted.set(last, -x);
            }
            Some((sorted, perm))
        },
    }
}

// ---- the root lattice ----------------------------------------------------------------

/// `Σ_{k < i} d[k]`.
pub open spec fn prefix_sum(d: Seq<i64>, i: int) -> int
    decreases i,
{
    if i <= 0 {
        0
    } else {
        prefix_sum(d, i - 1) + d[i - 1]
    }
}

/// The coefficients `c` with `d = Σ cᵢ αᵢ` over the simple roots (ε-basis):
/// the prefix sums of `d` for the `e_i − e_{i+1}` chain, closed by the last
/// simple root(s) of the series.
pub open spec fn simple_coeff(series: Series, d: Seq<i64>, i: int) -> int {
    let r = d.len() as int;
    let total = prefix_sum(d, r);
    if series == Series::C && i == r - 1 {
        total / 2
    } else if series == Series::D && i == r - 1 {
        total / 2
    } else if series == Series::D && i == r - 2 {
        total / 2 - d[r - 1]
    } else {
        prefix_sum(d, i + 1)
    }
}

/// Whether `d` is a non-negative integer combination of the simple roots.
pub open spec fn in_positive_root_cone(series: Series, d: Seq<i64>) -> bool {
    &&& (series == Series::B || prefix_sum(d, d.len() as int) % 2 == 0)
    &&& forall|i: int| 0 <= i < d.len() ==> simple_coeff(series, d, i) >= 0
}

proof fn lemma_prefix_sum_bound(d: Seq<i64>, i: int, b: int)
    requires
        0 <= i <= d.len(),
        bounded(d, b),
        b >= 0,
    ensures
        -(i * b) <= prefix_sum(d, i) <= i * b,
    decreases i,
{
    if i > 0 {
        lemma_prefix_sum_bound(d, i - 1, b);
        assert((i - 1) * b + b == i * b) by (nonlinear_arith);
    }
}

/// The simple-root coefficients of a vector in the box `|x| ≤ 2^26` of rank
/// at most `1024` lie within `2^37`.
pub(crate) proof fn lemma_simple_coeff_bound(series: Series, d: Seq<i64>, i: int)
    requires
        1 <= d.len() <= 1024,
        bounded(d, 0x400_0000),
        0 <= i < d.len(),
    ensures
        -0x20_0000_0000 <= simple_coeff(series, d, i) <= 0x20_0000_0000,
{
    let r = d.len() as int;
    lemma_prefix_sum_bound(d, r, 0x400_0000);
    lemma_prefix_sum_bound(d, i + 1, 0x400_0000);
    assert(r * 0x400_0000 <= 0x10_0000_0000) by (nonlinear_arith)
        requires
            r <= 1024,
    ;
    assert((i + 1) * 0x400_0000 <= 0x10_0000_0000) by (nonlinear_arith)
        requires
            i + 1 <= 1024,
    ;
    assert(-0x400_0000 <= d[r - 1] <= 0x400_0000);
}

/// The simple-root coefficients of `d`, or `None` if `d` is not a
/// non-negative integer combination of the simple roots.
pub fn simple_root_coeffs(series: Series, d: &[i64]) -> (res: Option<Vec<i64>>)
    requires
        2 <= d@.len() <= RANK_BOUND,
        bounded(d@, 4 * WEIGHT_BOUND),
    ensures
        match res {
            None => !in_positive_root_cone(series, d@),
            Some(c) => {
                &&& in_positive_root_cone(series, d@)
                &&& c@.len() == d@.len()
                &&& forall|i: int| 0 <= i < d@.len() ==> c@[i] == simple_coeff(series, d@, i)
            },
        },
{
    let r = d.len();
    let mut c: Vec<i64> = Vec::new();
    let mut acc: i64 = 0;
    let mut i: usize = 0;
    while i < r
        invariant
            r == d@.len() <= RANK_BOUND,
            2 <= r,
            bounded(d@, 4 * WEIGHT_BOUND),
            i <= r,
            acc == prefix_sum(d@, i as int),
            c@.len() == i,
            forall|k: int| 0 <= k < i ==> c@[k] == prefix_sum(d@, k + 1),
        decreases r - i,
    {
        proof {
            lemma_prefix_sum_bound(d@, i + 1, 4 * WEIGHT_BOUND);
            assert((i + 1) * (4 * WEIGHT_BOUND) <= 1024 * (4 * WEIGHT_BOUND)) by (nonlinear_arith)
                requires
                    i + 1 <= 1024,
            ;
        }
        acc = acc + d[i];
        c.push(acc);
        i = i + 1;
    }
    let total = acc;
    match series {
        Series::B => {},
        Series::C => {
            if total % 2 != 0 {
                return None;
            }
            c.set(r - 1, total / 2);
        },
        Series::D => {
            if total % 2 != 0 {
                return None;
            }
            proof {
                lemma_prefix_sum_bound(d@, r as int, 4 * WEIGHT_BOUND);
                assert(r * (4 * WEIGHT_BOUND) <= 1024 * (4 * WEIGHT_BOUND)) by (nonlinear_arith)
                    requires
                        r <= 1024,
                ;
            }
            c.set(r - 1, total / 2);
            c.set(r - 2, total / 2 - d[r - 1]);
        },
    }
    let mut k: usize = 0;
    while k < r
        invariant
            r == d@.len() == c@.len(),
            2 <= r,
            k <= r,
            total == prefix_sum(d@, r as int),
            series == Series::B || total % 2 == 0,
            forall|t: int| 0 <= t < r ==> c@[t] == simple_coeff(series, d@, t),
            forall|t: int| 0 <= t < k ==> c@[t] >= 0,
        decreases r - k,
    {
        if c[k] < 0 {
            assert(simple_coeff(series, d@, k as int) < 0);
            return None;
        }
        k = k + 1;
    }
    assert forall|t: int| 0 <= t < r implies simple_coeff(series, d@, t) >= 0 by {
        assert(c@[t] >= 0);
    }
    assert(series == Series::B || prefix_sum(d@, d@.len() as int) % 2 == 0);
    Some(c)
}


// ---- vectors as values ------------------------------------------------------------------

/// Whether two integer vectors are equal.
pub fn same_vec(a: &[i64], b: &[i64]) -> (eq: bool)
    ensures
        eq == (a@ == b@),
{
    if a.len() != b.len() {
        return false;
    }
    let mut i: usize = 0;
    while i < a.len()
        invariant
            a@.len() == b@.len(),
            i <= a@.len(),
            forall|j: int| 0 <= j < i ==> a@[j] == b@[j],
        decreases a@.len() - i,
    {
        if a[i] != b[i] {
            assert(a@[i as int] != b@[i as int]);
            return false;
        }
        i = i + 1;
    }
    assert(a@ =~= b@);
    true
}

/// The position of `w` in `list`, if it occurs.
pub fn position_of(list: &Vec<Vec<i64>>, w: &[i64]) -> (pos: Option<usize>)
    ensures
        match pos {
            Some(k) => k < list@.len() && list@[k as int]@ == w@,
            None => forall|k: int| 0 <= k < list@.len() ==> #[trigger] list@[k]@ != w@,
        },
{
    let mut k: usize = 0;
    while k < list.len()
        invariant
            k <= list@.len(),
            forall|t: int| 0 <= t < k ==> #[trigger] list@[t]@ != w@,
        decreases list@.len() - k,
    {
        if same_vec(list[k].as_slice(), w) {
            return Some(k);
        }
        k = k + 1;
    }
    None
}

/// Whether no two vectors of `s` are equal.
pub open spec fn distinct_vecs(s: Seq<Vec<i64>>) -> bool {
    forall|a: int, b: int| 0 <= a < b < s.len() ==> #[trigger] s[a]@ != #[trigger] s[b]@
}

/// Whether every vector of `s` has length `r` and coordinates in `[-b, b]`.
pub open spec fn all_bounded(s: Seq<Vec<i64>>, r: int, b: int) -> bool {
    forall|k: int| 0 <= k < s.len() ==> #[trigger] s[k]@.len() == r && bounded(s[k]@, b)
}

/// A copy of a vector.
pub fn copy_vec(a: &[i64]) -> (v: Vec<i64>)
    ensures
        v@ == a@,
{
    let mut v: Vec<i64> = Vec::new();
    let mut i: usize = 0;
    while i < a.len()
        invariant
            i <= a@.len(),
            v@ == a@.subrange(0, i as int),
        decreases a@.len() - i,
    {
        v.push(a[i]);
        i = i + 1;
    }
    assert(a@.subrange(0, a@.len() as int) =~= a@);
    v
}

// ---- Weyl orbits ----------------------------------------------------------------------

/// `v` with the entries where `s` holds negated.
pub open spec fn signed_by(v: Seq<i64>, s: Seq<bool>) -> Seq<i64> {
    Seq::new(
        v.len(),
        |i: int|
            if s[i] {
                (-v[i]) as i64
            } else {
                v[i]
            },
    )
}

/// The number of entries of `s` that hold.
pub open spec fn count_true(s: Seq<bool>) -> nat
    decreases s.len(),
{
    if s.len() == 0 {
        0
    } else {
        count_true(s.drop_last()) + if s.last() {
            1nat
        } else {
            0nat
        }
    }
}

/// `v` read through the index map `p`: position `i` holds `v[p[i]]`.
pub open spec fn permuted_by(v: Seq<i64>, p: Seq<usize>) -> Seq<i64> {
    Seq::new(p.len(), |i: int| v[p[i] as int])
}

/// The indices `0, 1, …, n-1`.
pub open spec fn index_range(n: nat) -> Seq<usize> {
    Seq::new(n, |i: int| i as usize)
}

/// `p` is a permutation of `0, 1, …, n-1`.
pub open spec fn is_permutation(p: Seq<usize>, n: nat) -> bool {
    p.to_multiset() == index_range(n).to_multiset()
}

/// `w` is a Weyl-group image of `mu`: a permutation of `mu` with some of its
/// signs reversed — any number of them for `B` and `C`, an even number for
/// `D`.
pub open spec fn is_weyl_image(series: Series, mu: Seq<i64>, w: Seq<i64>) -> bool {
    exists|s: Seq<bool>, p: Seq<usize>|
        #![trigger permuted_by(signed_by(mu, s), p)]
        {
            &&& s.len() == mu.len()
            &&& (series == Series::D ==> count_true(s) % 2 == 0)
            &&& is_permutation(p, mu.len())
            &&& w == permuted_by(signed_by(mu, s), p)
        }
}

/// `w` occurs in `out`.
pub open spec fn holds_vec(out: Seq<Vec<i64>>, w: Seq<i64>) -> bool {
    exists|k: int| 0 <= k < out.len() && #[trigger] out[k]@ == w
}

/// `w` is `v` read through some index map with the multiset of indices `ms`.
pub open spec fn is_rearrangement(v: Seq<i64>, w: Seq<i64>, ms: Multiset<usize>) -> bool {
    exists|q: Seq<usize>| #![trigger permuted_by(v, q)] q.to_multiset() == ms && w == permuted_by(v, q)
}

/// `b` keeps the entries of `a` and may append more.
pub open spec fn extends(a: Seq<Vec<i64>>, b: Seq<Vec<i64>>) -> bool {
    &&& b.len() >= a.len()
    &&& forall|j: int| 0 <= j < a.len() ==> (#[trigger] b[j])@ == a[j]@
}

pub(crate) proof fn lemma_extends_trans(a: Seq<Vec<i64>>, b: Seq<Vec<i64>>, c: Seq<Vec<i64>>)
    requires
        extends(a, b),
        extends(b, c),
    ensures
        extends(a, c),
{
    assert forall|j: int| 0 <= j < a.len() implies (#[trigger] c[j])@ == a[j]@ by {
        assert(c[j]@ == b[j]@);
    }
}

pub(crate) proof fn lemma_holds_extends(a: Seq<Vec<i64>>, b: Seq<Vec<i64>>, w: Seq<i64>)
    requires
        extends(a, b),
        holds_vec(a, w),
    ensures
        holds_vec(b, w),
{
    let k = choose|k: int| 0 <= k < a.len() && #[trigger] a[k]@ == w;
    assert(b[k]@ == w);
}

/// The multiset of `s[k..n]` is that of `s[k+1..n]` with `s[k]` added.
proof fn lemma_tail_multiset(s: Seq<usize>, k: int, n: int)
    requires
        0 <= k < n <= s.len(),
    ensures
        s.subrange(k, n).to_multiset() == s.subrange(k + 1, n).to_multiset().insert(s[k]),
{
    broadcast use vstd::seq_lib::group_to_multiset_ensures;

    let t = s.subrange(k + 1, n);
    assert(s.subrange(k, n) =~= seq![s[k]] + t);
    vstd::seq_lib::lemma_multiset_commutative(seq![s[k]], t);
    assert(seq![s[k]] =~= Seq::<usize>::empty().push(s[k]));
    assert(seq![s[k]].to_multiset() =~= Multiset::<usize>::empty().insert(s[k]));
    assert((seq![s[k]] + t).to_multiset() =~= t.to_multiset().insert(s[k]));
}

/// Append `w` to `out` unless it already occurs.
fn insert_distinct(out: &mut Vec<Vec<i64>>, w: Vec<i64>, r: usize, b: i64)
    requires
        distinct_vecs(old(out)@),
        all_bounded(old(out)@, r as int, b as int),
        w@.len() == r,
        bounded(w@, b as int),
    ensures
        distinct_vecs(final(out)@),
        all_bounded(final(out)@, r as int, b as int),
        extends(old(out)@, final(out)@),
        holds_vec(final(out)@, w@),
        forall|j: int| old(out)@.len() <= j < final(out)@.len() ==> (#[trigger] final(out)@[j])@ == w@,
{
    match position_of(out, w.as_slice()) {
        Some(k) => {
            assert(out@[k as int]@ == w@);
        },
        None => {
            let ghost wv = w@;
            out.push(w);
            assert(out@[out@.len() - 1]@ == wv);
        },
    }
}

/// Insert `v` read through every permutation of `idx` that keeps
/// `idx[0..k]` into `out`: every `q` agreeing with `idx` on `0..k` whose
/// entries from `k` on rearrange those of `idx`.
fn permute_rec(v: &[i64], idx: &mut Vec<usize>, k: usize, out: &mut Vec<Vec<i64>>, b: i64)
    requires
        old(idx)@.len() == v@.len(),
        k <= v@.len(),
        forall|t: int| 0 <= t < old(idx)@.len() ==> old(idx)@[t] < v@.len(),
        bounded(v@, b as int),
        distinct_vecs(old(out)@),
        all_bounded(old(out)@, v@.len() as int, b as int),
    ensures
        final(idx)@ == old(idx)@,
        distinct_vecs(final(out)@),
        all_bounded(final(out)@, v@.len() as int, b as int),
        extends(old(out)@, final(out)@),
        forall|j: int|
            old(out)@.len() <= j < final(out)@.len() ==> is_rearrangement(
                v@,
                (#[trigger] final(out)@[j])@,
                old(idx)@.to_multiset(),
            ),
        forall|q: Seq<usize>|
            q.len() == v@.len() && q.subrange(0, k as int) == old(idx)@.subrange(0, k as int)
                && q.subrange(k as int, v@.len() as int).to_multiset() == old(idx)@.subrange(
                k as int,
                v@.len() as int,
            ).to_multiset() ==> holds_vec(final(out)@, #[trigger] permuted_by(v@, q)),
    decreases v@.len() - k,
{
    let n = idx.len();
    let ghost idx0 = idx@;
    let ghost out0 = out@;
    if k == n {
        let mut w: Vec<i64> = Vec::new();
        let mut t: usize = 0;
        while t < n
            invariant
                n == idx@.len() == v@.len(),
                t <= n,
                forall|s: int| 0 <= s < idx@.len() ==> idx@[s] < v@.len(),
                bounded(v@, b as int),
                w@.len() == t,
                bounded(w@, b as int),
                forall|s: int| 0 <= s < t ==> w@[s] == v@[idx@[s] as int],
            decreases n - t,
        {
            let x = v[idx[t]];
            w.push(x);
            t = t + 1;
        }
        assert(w@ =~= permuted_by(v@, idx@));
        insert_distinct(out, w, n, b);
        assert forall|q: Seq<usize>|
            q.len() == v@.len() && q.subrange(0, k as int) == idx0.subrange(0, k as int)
                implies #[trigger] permuted_by(v@, q) == permuted_by(v@, idx0) by {
            assert(q =~= q.subrange(0, k as int));
            assert(idx0 =~= idx0.subrange(0, k as int));
        }
        assert forall|j: int| out0.len() <= j < out@.len() implies is_rearrangement(
            v@,
            (#[trigger] out@[j])@,
            idx0.to_multiset(),
        ) by {
            assert(out@[j]@ == permuted_by(v@, idx0));
        }
        return;
    }
    let mut i: usize = k;
    while i < n
        invariant
            n == idx@.len() == v@.len(),
            k < n,
            k <= i <= n,
            idx@ == idx0,
            forall|t: int| 0 <= t < idx@.len() ==> idx@[t] < v@.len(),
            bounded(v@, b as int),
            distinct_vecs(out@),
            all_bounded(out@, v@.len() as int, b as int),
            extends(out0, out@),
            forall|j: int|
                out0.len() <= j < out@.len() ==> is_rearrangement(
                    v@,
                    (#[trigger] out@[j])@,
                    idx0.to_multiset(),
                ),
            forall|q: Seq<usize>|
                q.len() == v@.len() && q.subrange(0, k as int) == idx0.subrange(0, k as int)
                    && q.subrange(k as int, n as int).to_multiset() == idx0.subrange(
                    k as int,
                    n as int,
                ).to_multiset() && (exists|j: int| k <= j < i && idx0[j] == q[k as int])
                    ==> holds_vec(out@, #[trigger] permuted_by(v@, q)),
        decreases n - i,
    {
        let ghost out1 = out@;
        let a = idx[k];
        let c = idx[i];
        idx.set(k, c);
        idx.set(i, a);
        let ghost idx2 = idx@;
        proof {
            lemma_swap_multiset(idx0, k as int, i as int);
            assert(idx2 == idx0.update(k as int, idx0[i as int]).update(i as int, idx0[k as int]));
            lemma_swap_multiset(idx0.subrange(k as int, n as int), 0, i - k);
            assert(idx2.subrange(k as int, n as int) =~= idx0.subrange(k as int, n as int).update(
                0,
                idx0[i as int],
            ).update(i - k, idx0[k as int]));
        }
        permute_rec(v, idx, k + 1, out, b);
        let a2 = idx[k];
        let c2 = idx[i];
        idx.set(k, c2);
        idx.set(i, a2);
        proof {
            assert(idx@ =~= idx0);
            let out2 = out@;
            assert(idx2.to_multiset() == idx0.to_multiset());
            lemma_extends_trans(out0, out1, out2);
            assert forall|j: int| out0.len() <= j < out2.len() implies is_rearrangement(
                v@,
                (#[trigger] out2[j])@,
                idx0.to_multiset(),
            ) by {
                if j < out1.len() {
                    assert(out2[j]@ == out1[j]@);
                }
            }
            assert forall|q: Seq<usize>|
                q.len() == v@.len() && q.subrange(0, k as int) == idx0.subrange(0, k as int)
                    && q.subrange(k as int, n as int).to_multiset() == idx0.subrange(
                    k as int,
                    n as int,
                ).to_multiset() && (exists|j: int| k <= j < i + 1 && idx0[j] == q[k as int])
                    implies holds_vec(out2, #[trigger] permuted_by(v@, q)) by {
                if exists|j: int| k <= j < i && idx0[j] == q[k as int] {
                    lemma_holds_extends(out1, out2, permuted_by(v@, q));
                } else {
                    assert(idx0[i as int] == q[k as int]);
                    assert(q.subrange(0, k + 1) =~= idx2.subrange(0, k + 1));
                    lemma_tail_multiset(q, k as int, n as int);
                    lemma_tail_multiset(idx2, k as int, n as int);
                    assert(idx2[k as int] == q[k as int]);
                    assert(q.subrange(k + 1, n as int).to_multiset() =~= idx2.subrange(
                        k + 1,
                        n as int,
                    ).to_multiset()) by {
                        broadcast use vstd::multiset::group_multiset_axioms;

                        let mq = q.subrange(k + 1, n as int).to_multiset();
                        let mi = idx2.subrange(k + 1, n as int).to_multiset();
                        assert(mq.insert(q[k as int]) == mi.insert(q[k as int]));
                        assert(mq =~= mq.insert(q[k as int]).remove(q[k as int]));
                        assert(mi =~= mi.insert(q[k as int]).remove(q[k as int]));
                    }
                }
            }
        }
        i = i + 1;
    }
    proof {
        assert(idx0 == old(idx)@);
        assert(out0 == old(out)@);
        assert forall|q: Seq<usize>|
            q.len() == v@.len() && q.subrange(0, k as int) == idx0.subrange(0, k as int)
                && q.subrange(k as int, n as int).to_multiset() == idx0.subrange(
                k as int,
                n as int,
            ).to_multiset() implies holds_vec(out@, #[trigger] permuted_by(v@, q)) by {
            broadcast use vstd::seq_lib::group_to_multiset_ensures;

            let tail = idx0.subrange(k as int, n as int);
            assert(q.subrange(k as int, n as int)[0] == q[k as int]);
            assert(q.subrange(k as int, n as int).contains(q[k as int]));
            assert(tail.to_multiset().count(q[k as int]) > 0);
            assert(tail.contains(q[k as int]));
            let t = choose|t: int| 0 <= t < tail.len() && tail[t] == q[k as int];
            assert(idx0[k + t] == q[k as int]);
        }
    }
}

/// Choose a sign for every coordinate of `mu` from position `pos` on (for
/// `D`, an even number of reversals in all), and insert every permutation of
/// each signed vector into `out`. `sg` records the signs chosen before `pos`.
fn signs_rec(
    series: Series,
    mu: &[i64],
    pos: usize,
    flips: usize,
    cur: &mut Vec<i64>,
    out: &mut Vec<Vec<i64>>,
    Ghost(sg): Ghost<Seq<bool>>,
)
    requires
        old(cur)@.len() == mu@.len(),
        1 <= mu@.len() <= RANK_BOUND,
        pos <= mu@.len(),
        flips <= pos,
        sg.len() == pos,
        flips == count_true(sg),
        forall|t: int| 0 <= t < pos ==> old(cur)@[t] == signed_by(mu@, sg)[t],
        bounded(mu@, WEIGHT_BOUND as int),
        bounded(old(cur)@, WEIGHT_BOUND as int),
        distinct_vecs(old(out)@),
        all_bounded(old(out)@, mu@.len() as int, WEIGHT_BOUND as int),
    ensures
        final(cur)@.len() == mu@.len(),
        forall|t: int| 0 <= t < pos ==> final(cur)@[t] == old(cur)@[t],
        bounded(final(cur)@, WEIGHT_BOUND as int),
        distinct_vecs(final(out)@),
        all_bounded(final(out)@, mu@.len() as int, WEIGHT_BOUND as int),
        extends(old(out)@, final(out)@),
        forall|j: int|
            old(out)@.len() <= j < final(out)@.len() ==> is_weyl_image(
                series,
                mu@,
                (#[trigger] final(out)@[j])@,
            ),
        forall|s: Seq<bool>, p: Seq<usize>|
            s.len() == mu@.len() && s.subrange(0, pos as int) == sg && (series == Series::D
                ==> count_true(s) % 2 == 0) && is_permutation(p, mu@.len()) ==> holds_vec(
                final(out)@,
                #[trigger] permuted_by(signed_by(mu@, s), p),
            ),
    decreases mu@.len() - pos,
{
    let r = mu.len();
    let ghost out0 = out@;
    let ghost cur0 = cur@;
    if pos == r {
        proof {
            assert forall|s: Seq<bool>| s.len() == mu@.len() && s.subrange(0, pos as int) == sg implies s
                == sg by {
                assert(s =~= s.subrange(0, pos as int));
            }
            assert(cur@ =~= signed_by(mu@, sg));
        }
        if series == Series::D && flips % 2 == 1 {
            return;
        }
        let mut idx: Vec<usize> = Vec::new();
        let mut t: usize = 0;
        while t < r
            invariant
                t <= r,
                idx@ == index_range(t as nat),
            decreases r - t,
        {
            idx.push(t);
            t = t + 1;
            assert(idx@ =~= index_range(t as nat));
        }
        let ghost idx0 = idx@;
        let ghost cv = cur@;
        let cs = cur.as_slice();
        assert(cs@ == cv);
        permute_rec(cs, &mut idx, 0, out, WEIGHT_BOUND);
        proof {
            assert forall|j: int| out0.len() <= j < out@.len() implies is_weyl_image(
                series,
                mu@,
                (#[trigger] out@[j])@,
            ) by {
                assert(is_rearrangement(cv, out@[j]@, idx0.to_multiset()));
                let q = choose|q: Seq<usize>|
                    #![trigger permuted_by(cv, q)]
                    q.to_multiset() == idx0.to_multiset() && out@[j]@ == permuted_by(cv, q);
                assert(permuted_by(signed_by(mu@, sg), q) == out@[j]@);
            }
            assert forall|s: Seq<bool>, p: Seq<usize>|
                s.len() == mu@.len() && s.subrange(0, pos as int) == sg && (series == Series::D
                    ==> count_true(s) % 2 == 0) && is_permutation(p, mu@.len()) implies holds_vec(
                out@,
                #[trigger] permuted_by(signed_by(mu@, s), p),
            ) by {
                broadcast use vstd::seq_lib::group_to_multiset_ensures;

                assert(s =~= s.subrange(0, pos as int));
                assert(s == sg);
                vstd::seq_lib::to_multiset_len(p);
                vstd::seq_lib::to_multiset_len(index_range(r as nat));
                assert(p.len() == r);
                assert(p.subrange(0, 0) =~= idx0.subrange(0, 0));
                assert(p.subrange(0, r as int) =~= p);
                assert(idx0.subrange(0, r as int) =~= idx0);
                assert(permuted_by(cv, p) == permuted_by(signed_by(mu@, s), p));
            }
        }
        return;
    }
    let x = mu[pos];
    cur.set(pos, x);
    let ghost sg0 = sg.push(false);
    proof {
        assert(count_true(sg0) == count_true(sg)) by {
            assert(sg0.drop_last() =~= sg);
        }
        assert forall|t: int| 0 <= t < pos + 1 implies cur@[t] == signed_by(mu@, sg0)[t] by {}
    }
    signs_rec(series, mu, pos + 1, flips, cur, out, Ghost(sg0));
    let ghost out1 = out@;
    cur.set(pos, -x);
    let ghost sg1 = sg.push(true);
    proof {
        assert(count_true(sg1) == count_true(sg) + 1) by {
            assert(sg1.drop_last() =~= sg);
        }
        assert forall|t: int| 0 <= t < pos + 1 implies cur@[t] == signed_by(mu@, sg1)[t] by {}
    }
    signs_rec(series, mu, pos + 1, flips + 1, cur, out, Ghost(sg1));
    proof {
        assert forall|j: int| out0.len() <= j < out@.len() implies is_weyl_image(
            series,
            mu@,
            (#[trigger] out@[j])@,
        ) by {
            if j < out1.len() {
                assert(out@[j]@ == out1[j]@);
            }
        }
        assert forall|s: Seq<bool>, p: Seq<usize>|
            s.len() == mu@.len() && s.subrange(0, pos as int) == sg && (series == Series::D
                ==> count_true(s) % 2 == 0) && is_permutation(p, mu@.len()) implies holds_vec(
            out@,
            #[trigger] permuted_by(signed_by(mu@, s), p),
        ) by {
            if s[pos as int] {
                assert(s.subrange(0, pos + 1) =~= sg1);
            } else {
                assert(s.subrange(0, pos + 1) =~= sg0);
                lemma_holds_extends(out1, out@, permuted_by(signed_by(mu@, s), p));
            }
        }
    }
}

/// All distinct Weyl-group images of a weight `mu` (ε-basis): signed
/// permutations for `B` and `C`, evenly-signed permutations for `D`, each
/// once.
pub fn weyl_orbit(series: Series, mu: &[i64]) -> (orbit: Vec<Vec<i64>>)
    requires
        1 <= mu@.len() <= RANK_BOUND,
        bounded(mu@, WEIGHT_BOUND as int),
    ensures
        distinct_vecs(orbit@),
        all_bounded(orbit@, mu@.len() as int, WEIGHT_BOUND as int),
        forall|w: Seq<i64>| #[trigger] holds_vec(orbit@, w) <==> is_weyl_image(series, mu@, w),
{
    let mut out: Vec<Vec<i64>> = Vec::new();
    let mut cur = copy_vec(mu);
    signs_rec(series, mu, 0, 0, &mut cur, &mut out, Ghost(Seq::empty()));
    proof {
        assert forall|w: Seq<i64>| #[trigger] holds_vec(out@, w) <==> is_weyl_image(series, mu@, w) by {
            if holds_vec(out@, w) {
                let k = choose|k: int| 0 <= k < out@.len() && #[trigger] out@[k]@ == w;
                assert(is_weyl_image(series, mu@, out@[k]@));
            }
            if is_weyl_image(series, mu@, w) {
                let (s, p) = choose|s: Seq<bool>, p: Seq<usize>|
                    #![trigger permuted_by(signed_by(mu@, s), p)]
                    {
                        &&& s.len() == mu@.len()
                        &&& (series == Series::D ==> count_true(s) % 2 == 0)
                        &&& is_permutation(p, mu@.len())
                        &&& w == permuted_by(signed_by(mu@, s), p)
                    };
                assert(s.subrange(0, 0) =~= Seq::<bool>::empty());
            }
        }
    }
    out
}

} // verus!
