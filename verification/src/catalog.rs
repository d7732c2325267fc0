//! The finite candidate set of the canonical-parent rule: every irrep of a
//! group that precedes a given irrep `c` in the well order `≺`.
//!
//! `x ≺ c` compares the keys `(box(x), dim(x), dynkin(x))` lexicographically,
//! where `box(x) = Σ |2λ_i|` is the doubled box count of the highest weight.
//! The box count is monotone in every coordinate, so every `x ≺ c` has
//! `box(x) ≤ box(c)`: a walk over the dominant weights of bounded box count
//! is a complete superset, which the key comparison then trims.

use vstd::prelude::*;
use crate::bcd::{
    dim_spec, dynkin_spec, lemma_dynkin_of_partition, lemma_partition_of_dynkin, min_rank_spec,
    weight_wf, Irrep, Series,
};
use crate::bignum::{big_lt, bigint_value};
use crate::weyl::{copy_vec, holds_vec, RANK_BOUND};
use num_bigint::BigInt;

verus! {

// ---- the walk over shapes -----------------------------------------------------

/// `v[0] + … + v[n-1]`.
pub open spec fn head_sum(v: Seq<i64>, n: int) -> int
    decreases n,
{
    if n <= 0 {
        0
    } else {
        head_sum(v, n - 1) + v[n - 1]
    }
}

/// `v` is non-increasing and non-negative on its first `n` entries.
pub open spec fn shape_prefix(v: Seq<i64>, n: int) -> bool {
    &&& forall|i: int, j: int| 0 <= i <= j < n ==> v[i] >= v[j]
    &&& forall|i: int| 0 <= i < n ==> v[i] >= 0
}

/// A shape of length `r` whose entries sum to at most `m`.
pub open spec fn is_shape(v: Seq<i64>, r: int, m: int) -> bool {
    &&& v.len() == r
    &&& shape_prefix(v, r)
    &&& head_sum(v, r) <= m
}

/// `head_sum` reads only the first `n` entries.
proof fn lemma_head_sum_prefix(u: Seq<i64>, v: Seq<i64>, n: int)
    requires
        0 <= n <= u.len(),
        n <= v.len(),
        forall|i: int| 0 <= i < n ==> u[i] == v[i],
    ensures
        head_sum(u, n) == head_sum(v, n),
    decreases n,
{
    if n > 0 {
        lemma_head_sum_prefix(u, v, n - 1);
    }
}

/// On non-negative entries, `head_sum` grows with `n`.
proof fn lemma_head_sum_mono(v: Seq<i64>, n: int, k: int)
    requires
        0 <= n <= k <= v.len(),
        forall|i: int| 0 <= i < k ==> v[i] >= 0,
    ensures
        head_sum(v, n) <= head_sum(v, k),
    decreases k - n,
{
    if n < k {
        lemma_head_sum_mono(v, n, k - 1);
    }
}

/// Every entry of a non-negative prefix is at most its sum.
proof fn lemma_entry_le_head_sum(v: Seq<i64>, i: int, k: int)
    requires
        0 <= i < k <= v.len(),
        forall|t: int| 0 <= t < k ==> v[t] >= 0,
    ensures
        v[i] <= head_sum(v, k),
{
    lemma_head_sum_mono(v, i, i + 1);
    lemma_head_sum_mono(v, i + 1, k);
    lemma_head_sum_mono(v, 0, i);
}

/// Appends to `out` every shape of length `r` and sum at most `m` that agrees
/// with `cur` on its first `pos` entries, and nothing else.
fn walk_shapes(r: usize, m: i64, pos: usize, used: i64, cur: &mut Vec<i64>, out: &mut Vec<Vec<i64>>)
    requires
        old(cur)@.len() == r,
        pos <= r,
        0 <= m <= i64::MAX / 2,
        shape_prefix(old(cur)@, pos as int),
        used == head_sum(old(cur)@, pos as int),
        used <= m,
    ensures
        final(cur)@.len() == r,
        final(cur)@.subrange(0, pos as int) == old(cur)@.subrange(0, pos as int),
        final(out)@.len() >= old(out)@.len(),
        forall|k: int| 0 <= k < old(out)@.len() ==> final(out)@[k] == old(out)@[k],
        forall|k: int|
            old(out)@.len() <= k < final(out)@.len() ==> {
                &&& is_shape(#[trigger] final(out)@[k]@, r as int, m as int)
                &&& final(out)@[k]@.subrange(0, pos as int) == old(cur)@.subrange(0, pos as int)
            },
        forall|v: Seq<i64>|
            is_shape(v, r as int, m as int) && v.subrange(0, pos as int) == old(cur)@.subrange(
                0,
                pos as int,
            ) ==> #[trigger] holds_vec(final(out)@, v),
    decreases r - pos,
{
    let ghost cur0 = cur@;
    let ghost out0 = out@;
    if pos == r {
        let v = copy_vec(cur.as_slice());
        out.push(v);
        proof {
            assert(out@[out@.len() - 1]@ == cur0);
            assert forall|w: Seq<i64>|
                is_shape(w, r as int, m as int) && w.subrange(0, pos as int) == cur0.subrange(
                    0,
                    pos as int,
                ) implies #[trigger] holds_vec(out@, w) by {
                assert(w =~= w.subrange(0, pos as int));
                assert(cur0 =~= cur0.subrange(0, pos as int));
                assert(out@[out@.len() - 1]@ == w);
            }
            assert forall|k: int| out0.len() <= k < out@.len() implies {
                &&& is_shape(#[trigger] out@[k]@, r as int, m as int)
                &&& out@[k]@.subrange(0, pos as int) == cur0.subrange(0, pos as int)
            } by {
                assert(k == out0.len());
                assert(cur0 =~= cur0.subrange(0, pos as int));
            }
        }
        return;
    }
    let upper: i64 = if pos == 0 {
        m
    } else {
        cur[pos - 1]
    };
    proof {
        if pos > 0 {
            lemma_entry_le_head_sum(cur0, pos - 1, pos as int);
        }
    }
    let ghost prefix = cur0.subrange(0, pos as int);
    let mut x: i64 = 0;
    while x <= upper && used + x <= m
        invariant
            cur@.len() == r,
            cur0.len() == r,
            pos < r,
            cur@.subrange(0, pos as int) == prefix,
            prefix == cur0.subrange(0, pos as int),
            shape_prefix(cur0, pos as int),
            used == head_sum(cur0, pos as int),
            0 <= used <= m <= i64::MAX / 2,
            0 <= upper <= m,
            pos > 0 ==> upper == cur0[pos - 1],
            pos == 0 ==> upper == m,
            0 <= x <= upper + 1,
            out@.len() >= out0.len(),
            forall|k: int| 0 <= k < out0.len() ==> out@[k] == out0[k],
            forall|k: int|
                out0.len() <= k < out@.len() ==> {
                    &&& is_shape(#[trigger] out@[k]@, r as int, m as int)
                    &&& out@[k]@.subrange(0, pos as int) == prefix
                },
            forall|v: Seq<i64>|
                is_shape(v, r as int, m as int) && v.subrange(0, pos as int) == prefix && v[pos as int]
                    < x ==> #[trigger] holds_vec(out@, v),
        decreases upper + 1 - x,
    {
        let ghost out1 = out@;
        let ghost curb = cur@;
        cur.set(pos, x);
        let ghost cur1 = cur@;
        proof {
            assert forall|i: int| 0 <= i < pos implies cur1[i] == cur0[i] by {
                assert(curb.subrange(0, pos as int)[i] == prefix[i]);
            }
            lemma_head_sum_prefix(cur1, cur0, pos as int);
            assert(shape_prefix(cur1, pos + 1));
        }
        walk_shapes(r, m, pos + 1, used + x, cur, out);
        proof {
            assert(cur@.subrange(0, pos as int) =~= cur1.subrange(0, pos + 1).subrange(0, pos as int));
            assert(cur1.subrange(0, pos as int) =~= prefix);
            assert forall|k: int| 0 <= k < out0.len() implies out@[k] == out0[k] by {
                assert(out@[k] == out1[k]);
            }
            assert forall|k: int| out0.len() <= k < out@.len() implies {
                &&& is_shape(#[trigger] out@[k]@, r as int, m as int)
                &&& out@[k]@.subrange(0, pos as int) == prefix
            } by {
                if k < out1.len() {
                    assert(out@[k] == out1[k]);
                } else {
                    assert(out@[k]@.subrange(0, pos + 1) == cur1.subrange(0, pos + 1));
                    assert(out@[k]@.subrange(0, pos as int) =~= out@[k]@.subrange(0, pos + 1).subrange(
                        0,
                        pos as int,
                    ));
                    assert(cur1.subrange(0, pos as int) =~= cur1.subrange(0, pos + 1).subrange(
                        0,
                        pos as int,
                    ));
                }
            }
            assert forall|v: Seq<i64>|
                is_shape(v, r as int, m as int) && v.subrange(0, pos as int) == prefix && v[pos as int]
                    < x + 1 implies #[trigger] holds_vec(out@, v) by {
                if v[pos as int] < x {
                    assert(holds_vec(out1, v));
                    let k = choose|k: int| 0 <= k < out1.len() && #[trigger] out1[k]@ == v;
                    assert(out@[k] == out1[k]);
                } else {
                    assert(v.subrange(0, pos + 1) =~= cur1.subrange(0, pos + 1)) by {
                        assert forall|i: int| 0 <= i < pos + 1 implies #[trigger] v.subrange(
                            0,
                            pos + 1,
                        )[i] == cur1.subrange(0, pos + 1)[i] by {
                            if i < pos {
                                assert(v.subrange(0, pos as int)[i] == prefix[i]);
                            }
                        }
                    }
                }
            }
        }
        x = x + 1;
    }
    proof {
        assert forall|v: Seq<i64>|
            is_shape(v, r as int, m as int) && v.subrange(0, pos as int) == cur0.subrange(
                0,
                pos as int,
            ) implies #[trigger] holds_vec(out@, v) by {
            assert forall|i: int| 0 <= i < pos implies v[i] == cur0[i] by {
                assert(v.subrange(0, pos as int)[i] == prefix[i]);
            }
            lemma_head_sum_prefix(v, cur0, pos as int);
            lemma_head_sum_mono(v, pos + 1, r as int);
            if pos > 0 {
                assert(v[pos as int] <= v[pos - 1]);
            } else {
                lemma_entry_le_head_sum(v, 0, r as int);
            }
        }
        assert(cur@.subrange(0, pos as int) =~= cur0.subrange(0, pos as int));
    }
}

// ---- the order `≺` -----------------------------------------------------------------

/// The entrywise absolute values `|v_i|`.
pub open spec fn magnitudes(v: Seq<i64>) -> Seq<i64> {
    Seq::new(v.len(), |i: int| (if v[i] < 0 { -v[i] } else { v[i] as int }) as i64)
}

/// The doubled box count `Σ |2λ_i|` of a highest weight.
pub open spec fn box_count(w: Seq<i64>) -> int {
    2 * head_sum(magnitudes(w), w.len() as int)
}

/// `a` and `b` agree on their first `n` entries.
pub open spec fn same_prefix(a: Seq<i64>, b: Seq<i64>, n: int) -> bool {
    forall|k: int| 0 <= k < n ==> a[k] == b[k]
}

/// `a` comes strictly before `b` in lexicographic order.
pub open spec fn lex_lt(a: Seq<i64>, b: Seq<i64>) -> bool {
    exists|i: int| 0 <= i < a.len() && i < b.len() && #[trigger] same_prefix(a, b, i) && a[i] < b[i]
}

/// The order of the candidate list: `(dim, dynkin)`, lexicographically.
pub open spec fn listed_before(da: int, aa: Seq<i64>, db: int, ab: Seq<i64>) -> bool {
    da < db || (da == db && lex_lt(aa, ab))
}

/// `x ≺ c` on the keys `(box, dim, dynkin)`, lexicographically.
pub open spec fn key_precedes(bx: int, dx: int, ax: Seq<i64>, bc: int, dc: int, ac: Seq<i64>) -> bool {
    bx < bc || (bx == bc && listed_before(dx, ax, dc, ac))
}

/// The irrep of `series` with highest weight `w` precedes the irrep of
/// `cs` with highest weight `cw` in `≺`.
pub open spec fn precedes(series: Series, w: Seq<i64>, cs: Series, cw: Seq<i64>) -> bool {
    key_precedes(
        box_count(w),
        dim_spec(series, w),
        dynkin_spec(series, w),
        box_count(cw),
        dim_spec(cs, cw),
        dynkin_spec(cs, cw),
    )
}

/// Three-way lexicographic comparison of two labels of one length: `-1` when
/// `a` comes first, `0` when they are equal, `1` when `b` comes first.
fn lex_compare(a: &[i64], b: &[i64]) -> (o: i8)
    requires
        a@.len() == b@.len(),
    ensures
        o == -1 || o == 0 || o == 1,
        o == -1 ==> lex_lt(a@, b@),
        o == 0 ==> a@ == b@,
        o == 1 ==> lex_lt(b@, a@),
{
    let n = a.len();
    let mut i: usize = 0;
    while i < n
        invariant
            n == a@.len() == b@.len(),
            i <= n,
            same_prefix(a@, b@, i as int),
        decreases n - i,
    {
        if a[i] < b[i] {
            proof {
                assert(same_prefix(a@, b@, i as int));
            }
            return -1;
        } else if b[i] < a[i] {
            proof {
                assert(same_prefix(b@, a@, i as int));
            }
            return 1;
        }
        i = i + 1;
    }
    proof {
        assert(a@ =~= b@);
    }
    0
}

/// Three-way comparison of two list keys `(dim, dynkin)`.
fn listed_compare(dx: &BigInt, ax: &[i64], dy: &BigInt, ay: &[i64]) -> (o: i8)
    requires
        ax@.len() == ay@.len(),
    ensures
        o == -1 || o == 0 || o == 1,
        o == -1 ==> listed_before(bigint_value(*dx), ax@, bigint_value(*dy), ay@),
        o == 0 ==> bigint_value(*dx) == bigint_value(*dy) && ax@ == ay@,
        o == 1 ==> listed_before(bigint_value(*dy), ay@, bigint_value(*dx), ax@),
{
    if big_lt(dx, dy) {
        -1
    } else if big_lt(dy, dx) {
        1
    } else {
        lex_compare(ax, ay)
    }
}

// ---- the sorted candidate list ----------------------------------------------------

/// The list holds an irrep with highest weight `w`.
pub open spec fn holds_weight(res: Seq<Irrep>, w: Seq<i64>) -> bool {
    exists|k: int| 0 <= k < res.len() && #[trigger] res[k].weight_spec() == w
}

/// The candidate list: irreps of `(series, rank)` with their dimensions and
/// Dynkin labels alongside, strictly increasing in `(dim, dynkin)`.
spec fn list_wf(
    series: Series,
    rank: int,
    res: Seq<Irrep>,
    dims: Seq<BigInt>,
    dyns: Seq<Vec<i64>>,
) -> bool {
    &&& res.len() == dims.len()
    &&& res.len() == dyns.len()
    &&& forall|k: int|
        0 <= k < res.len() ==> {
            &&& (#[trigger] res[k]).series_spec() == series
            &&& res[k].weight_spec().len() == rank
            &&& weight_wf(series, res[k].weight_spec())
            &&& bigint_value(dims[k]) == dim_spec(series, res[k].weight_spec())
            &&& dyns[k]@ == dynkin_spec(series, res[k].weight_spec())
        }
    &&& forall|k: int|
        0 <= k < res.len() - 1 ==> listed_before(
            bigint_value(#[trigger] dims[k]),
            dyns[k]@,
            bigint_value(dims[k + 1]),
            dyns[k + 1]@,
        )
}

/// The first slot whose key is not below `(dx, ax)`, and whether that key
/// equals it.
fn find_slot(dims: &Vec<BigInt>, dyns: &Vec<Vec<i64>>, dx: &BigInt, ax: &[i64]) -> (res: (
    usize,
    bool,
))
    requires
        dims@.len() == dyns@.len(),
        forall|k: int| 0 <= k < dyns@.len() ==> (#[trigger] dyns@[k])@.len() == ax@.len(),
    ensures
        res.0 <= dims@.len(),
        forall|k: int|
            0 <= k < res.0 ==> listed_before(
                bigint_value(#[trigger] dims@[k]),
                dyns@[k]@,
                bigint_value(*dx),
                ax@,
            ),
        res.1 ==> res.0 < dims@.len() && bigint_value(dims@[res.0 as int]) == bigint_value(*dx)
            && dyns@[res.0 as int]@ == ax@,
        !res.1 && res.0 < dims@.len() ==> listed_before(
            bigint_value(*dx),
            ax@,
            bigint_value(dims@[res.0 as int]),
            dyns@[res.0 as int]@,
        ),
{
    let n = dims.len();
    let mut p: usize = 0;
    while p < n
        invariant
            n == dims@.len() == dyns@.len(),
            p <= n,
            forall|k: int| 0 <= k < dyns@.len() ==> (#[trigger] dyns@[k])@.len() == ax@.len(),
            forall|k: int|
                0 <= k < p ==> listed_before(
                    bigint_value(#[trigger] dims@[k]),
                    dyns@[k]@,
                    bigint_value(*dx),
                    ax@,
                ),
        decreases n - p,
    {
        let o = listed_compare(&dims[p], dyns[p].as_slice(), dx, ax);
        if o == 0 {
            return (p, true);
        } else if o == 1 {
            return (p, false);
        }
        p = p + 1;
    }
    (p, false)
}

/// Adds `x` (with its dimension and label) to the candidate list unless an
/// irrep with the same key is already there.
fn insert_listed(
    Ghost(series): Ghost<Series>,
    Ghost(rank): Ghost<int>,
    res: &mut Vec<Irrep>,
    dims: &mut Vec<BigInt>,
    dyns: &mut Vec<Vec<i64>>,
    x: Irrep,
    dx: BigInt,
    ax: Vec<i64>,
)
    requires
        list_wf(series, rank, old(res)@, old(dims)@, old(dyns)@),
        x.series_spec() == series,
        x.weight_spec().len() == rank,
        weight_wf(series, x.weight_spec()),
        bigint_value(dx) == dim_spec(series, x.weight_spec()),
        ax@ == dynkin_spec(series, x.weight_spec()),
    ensures
        list_wf(series, rank, final(res)@, final(dims)@, final(dyns)@),
        holds_weight(final(res)@, x.weight_spec()),
        forall|w: Seq<i64>| #[trigger]
            holds_weight(old(res)@, w) ==> holds_weight(final(res)@, w),
        forall|k: int|
            0 <= k < final(res)@.len() ==> (#[trigger] final(res)@[k]).weight_spec()
                == x.weight_spec() || holds_weight(old(res)@, final(res)@[k].weight_spec()),
{
    let ghost r0 = res@;
    let ghost m0 = dims@;
    let ghost y0 = dyns@;
    proof {
        assert forall|k: int| 0 <= k < y0.len() implies (#[trigger] y0[k])@.len() == ax@.len() by {
            assert(r0[k].series_spec() == series);
        }
    }
    let (p, eq) = find_slot(dims, dyns, &dx, ax.as_slice());
    if eq {
        proof {
            let w = r0[p as int].weight_spec();
            lemma_partition_of_dynkin(series, w);
            lemma_partition_of_dynkin(series, x.weight_spec());
            assert(w == x.weight_spec());
            assert(holds_weight(res@, x.weight_spec()));
            assert forall|k: int| 0 <= k < res@.len() implies (#[trigger] res@[k]).weight_spec()
                == x.weight_spec() || holds_weight(r0, res@[k].weight_spec()) by {
                assert(r0[k].weight_spec() == res@[k].weight_spec());
            }
        }
        return;
    }
    let ghost xw = x.weight_spec();
    res.insert(p, x);
    dims.insert(p, dx);
    dyns.insert(p, ax);
    proof {
        let n = r0.len();
        assert(res@.len() == n + 1);
        assert forall|k: int| 0 <= k < res@.len() implies {
            &&& (#[trigger] res@[k]).series_spec() == series
            &&& res@[k].weight_spec().len() == rank
            &&& weight_wf(series, res@[k].weight_spec())
            &&& bigint_value(dims@[k]) == dim_spec(series, res@[k].weight_spec())
            &&& dyns@[k]@ == dynkin_spec(series, res@[k].weight_spec())
        } by {
            if k < p {
                assert(res@[k] == r0[k]);
                assert(dims@[k] == m0[k]);
                assert(dyns@[k] == y0[k]);
            } else if k > p {
                assert(res@[k] == r0[k - 1]);
                assert(dims@[k] == m0[k - 1]);
                assert(dyns@[k] == y0[k - 1]);
            }
        }
        assert forall|k: int| 0 <= k < res@.len() - 1 implies listed_before(
            bigint_value(#[trigger] dims@[k]),
            dyns@[k]@,
            bigint_value(dims@[k + 1]),
            dyns@[k + 1]@,
        ) by {
            if k + 1 < p {
                assert(dims@[k] == m0[k] && dims@[k + 1] == m0[k + 1]);
                assert(dyns@[k] == y0[k] && dyns@[k + 1] == y0[k + 1]);
            } else if k + 1 == p {
                assert(dims@[k] == m0[k] && dyns@[k] == y0[k]);
            } else if k == p {
                assert(dims@[k + 1] == m0[k] && dyns@[k + 1] == y0[k]);
            } else {
                assert(dims@[k] == m0[k - 1] && dims@[k + 1] == m0[k]);
                assert(dyns@[k] == y0[k - 1] && dyns@[k + 1] == y0[k]);
            }
        }
        assert(res@[p as int].weight_spec() == xw);
        assert(holds_weight(res@, xw));
        assert forall|w: Seq<i64>| #[trigger] holds_weight(r0, w) implies holds_weight(res@, w) by {
            let k = choose|k: int| 0 <= k < r0.len() && #[trigger] r0[k].weight_spec() == w;
            if k < p {
                assert(res@[k] == r0[k]);
            } else {
                assert(res@[k + 1] == r0[k]);
            }
        }
        assert forall|k: int| 0 <= k < res@.len() implies (#[trigger] res@[k]).weight_spec() == xw
            || holds_weight(r0, res@[k].weight_spec()) by {
            if k < p {
                assert(res@[k] == r0[k]);
            } else if k > p {
                assert(res@[k] == r0[k - 1]);
            }
        }
    }
}

// ---- the candidates below an irrep ------------------------------------------------

/// A dominant weight's magnitudes form a shape whose total is half its box
/// count; the weight is its magnitudes, up to the sign of a `D` last entry.
proof fn lemma_weight_magnitudes(series: Series, w: Seq<i64>)
    requires
        weight_wf(series, w),
    ensures
        shape_prefix(magnitudes(w), w.len() as int),
        forall|i: int| 0 <= i < w.len() - 1 ==> w[i] == #[trigger] magnitudes(w)[i],
        w[w.len() - 1] >= 0 ==> w == magnitudes(w),
        w[w.len() - 1] < 0 ==> series == Series::D && w == magnitudes(w).update(
            w.len() - 1,
            -magnitudes(w)[w.len() - 1] as i64,
        ),
{
    let r = w.len() as int;
    let a = magnitudes(w);
    if series == Series::D {
        assert forall|i: int, j: int| 0 <= i <= j < r implies a[i] >= a[j] by {
            if j == r - 1 && i < r - 1 {
                assert(w[i] >= w[r - 2]);
            }
        }
    }
    if w[r - 1] >= 0 {
        assert(w =~= a);
    } else {
        assert(w =~= a.update(r - 1, -a[r - 1] as i64));
    }
}

/// A shape within the box is a dominant weight, and so, for `D`, is the
/// shape with its last entry negated; both have the shape as magnitudes.
proof fn lemma_shape_weights(series: Series, v: Seq<i64>, m: int)
    requires
        is_shape(v, v.len() as int, m),
        v.len() >= min_rank_spec(series),
        m <= i64::MAX / 2,
    ensures
        weight_wf(series, v),
        magnitudes(v) == v,
        series == Series::D ==> weight_wf(series, v.update(v.len() - 1, -v[v.len() - 1] as i64)),
        magnitudes(v.update(v.len() - 1, -v[v.len() - 1] as i64)) == v,
        box_count(v) == 2 * head_sum(v, v.len() as int),
        box_count(v.update(v.len() - 1, -v[v.len() - 1] as i64)) == 2 * head_sum(v, v.len() as int),
{
    let r = v.len() as int;
    lemma_entry_le_head_sum(v, 0, r);
    assert(magnitudes(v) =~= v);
    let u = v.update(r - 1, -v[r - 1] as i64);
    assert(magnitudes(u) =~= v);
}

/// The walk total `head_sum(v, n)` of a shape, in `i64`.
fn shape_total(v: &[i64], Ghost(m): Ghost<int>) -> (t: i64)
    requires
        is_shape(v@, v@.len() as int, m),
        m <= i64::MAX / 2,
    ensures
        t == head_sum(v@, v@.len() as int),
{
    let n = v.len();
    let mut acc: i64 = 0;
    let mut i: usize = 0;
    while i < n
        invariant
            n == v@.len(),
            is_shape(v@, n as int, m),
            m <= i64::MAX / 2,
            i <= n,
            acc == head_sum(v@, i as int),
        decreases n - i,
    {
        proof {
            lemma_head_sum_mono(v@, i + 1, n as int);
        }
        acc = acc + v[i];
        i = i + 1;
    }
    acc
}

/// Every irrep on the list precedes `c`.
spec fn all_precede(res: Seq<Irrep>, series: Series, cw: Seq<i64>) -> bool {
    forall|k: int| 0 <= k < res.len() ==> precedes(series, (#[trigger] res[k]).weight_spec(), series, cw)
}

/// Lists the irrep of highest weight `w` (box count `bw`) if it precedes `c`.
fn consider(
    series: Series,
    w: Vec<i64>,
    bw: i64,
    Ghost(cw): Ghost<Seq<i64>>,
    box_c: i64,
    dim_c: &BigInt,
    dyn_c: &[i64],
    res: &mut Vec<Irrep>,
    dims: &mut Vec<BigInt>,
    dyns: &mut Vec<Vec<i64>>,
)
    requires
        weight_wf(series, w@),
        w@.len() == cw.len() <= RANK_BOUND,
        bw == box_count(w@),
        box_c == box_count(cw),
        bigint_value(*dim_c) == dim_spec(series, cw),
        dyn_c@ == dynkin_spec(series, cw),
        list_wf(series, cw.len() as int, old(res)@, old(dims)@, old(dyns)@),
        all_precede(old(res)@, series, cw),
    ensures
        list_wf(series, cw.len() as int, final(res)@, final(dims)@, final(dyns)@),
        all_precede(final(res)@, series, cw),
        forall|u: Seq<i64>| #[trigger] holds_weight(old(res)@, u) ==> holds_weight(final(res)@, u),
        precedes(series, w@, series, cw) ==> holds_weight(final(res)@, w@),
{
    let ghost w0 = w@;
    let x = Irrep::from_weight(series, w);
    let dx = x.dim();
    let ax = x.dynkin();
    let first = if bw < box_c {
        true
    } else if bw == box_c {
        listed_compare(&dx, ax.as_slice(), dim_c, dyn_c) == -1
    } else {
        false
    };
    proof {
        assert(first == precedes(series, w0, series, cw));
    }
    if first {
        let ghost r0 = res@;
        insert_listed(Ghost(series), Ghost(cw.len() as int), res, dims, dyns, x, dx, ax);
        proof {
            assert forall|k: int| 0 <= k < res@.len() implies precedes(
                series,
                (#[trigger] res@[k]).weight_spec(),
                series,
                cw,
            ) by {
                if res@[k].weight_spec() != w0 {
                    let j = choose|j: int|
                        0 <= j < r0.len() && #[trigger] r0[j].weight_spec() == res@[k].weight_spec();
                    assert(precedes(series, r0[j].weight_spec(), series, cw));
                }
            }
        }
    }
}

/// The irreps `x` of `(series, rank)` with `x ≺ c`, sorted ascending by
/// `(dim, dynkin)`: the finite candidate set for the parents of `c`.
///
/// The walk visits every dominant weight whose doubled box count
/// `Σ |2λ_i|` is at most that of `c` (the `D` series also its chiral partner
/// with the last part negated), then keeps exactly those below `c`.
/// `c` belongs to `(series, rank)`, and its box count fits in `i64`.
pub fn irreps_below(series: Series, rank: usize, c: &Irrep) -> (res: Vec<Irrep>)
    requires
        c.series_spec() == series,
        c.weight_spec().len() == rank,
        rank <= RANK_BOUND,
        box_count(c.weight_spec()) <= i64::MAX,
    ensures
        forall|k: int|
            0 <= k < res@.len() ==> {
                &&& (#[trigger] res@[k]).series_spec() == series
                &&& res@[k].weight_spec().len() == rank
                &&& precedes(series, res@[k].weight_spec(), series, c.weight_spec())
            },
        forall|w: Seq<i64>|
            w.len() == rank && weight_wf(series, w) && precedes(series, w, series, c.weight_spec())
                ==> #[trigger] holds_weight(res@, w),
        forall|k: int|
            0 <= k < res@.len() - 1 ==> listed_before(
                dim_spec(series, (#[trigger] res@[k]).weight_spec()),
                dynkin_spec(series, res@[k].weight_spec()),
                dim_spec(series, res@[k + 1].weight_spec()),
                dynkin_spec(series, res@[k + 1].weight_spec()),
            ),
{
    let ghost cw = c.weight_spec();
    let dyn_c = c.dynkin();
    proof {
        lemma_dynkin_of_partition(series, dyn_c@);
        lemma_weight_magnitudes(series, cw);
    }
    let lam = c.partition();
    // m = Σ |λ_i|, half the box count of `c`.
    let mut m: i64 = 0;
    let mut i: usize = 0;
    while i < rank
        invariant
            lam@ == cw,
            cw.len() == rank,
            weight_wf(series, cw),
            shape_prefix(magnitudes(cw), rank as int),
            2 * head_sum(magnitudes(cw), rank as int) <= i64::MAX,
            i <= rank,
            m == head_sum(magnitudes(cw), i as int),
        decreases rank - i,
    {
        proof {
            lemma_head_sum_mono(magnitudes(cw), i + 1, rank as int);
            lemma_entry_le_head_sum(magnitudes(cw), i as int, rank as int);
        }
        let a = if lam[i] < 0 {
            proof {
                lemma_entry_le_head_sum(magnitudes(cw), rank - 2, rank as int);
                assert(cw[rank - 2] >= -cw[rank - 1]) by {
                    if series != Series::D {
                        assert(cw[i as int] >= 0);
                    }
                }
            }
            -lam[i]
        } else {
            lam[i]
        };
        m = m + a;
        i = i + 1;
    }
    proof {
        lemma_head_sum_mono(magnitudes(cw), 0, rank as int);
    }
    let box_c = 2 * m;
    let dim_c = c.dim();
    let mut cur: Vec<i64> = Vec::new();
    let mut z: usize = 0;
    while z < rank
        invariant
            z <= rank,
            cur@.len() == z,
        decreases rank - z,
    {
        cur.push(0);
        z = z + 1;
    }
    let mut shapes: Vec<Vec<i64>> = Vec::new();
    walk_shapes(rank, m, 0, 0, &mut cur, &mut shapes);
    let mut res: Vec<Irrep> = Vec::new();
    let mut dims: Vec<BigInt> = Vec::new();
    let mut dyns: Vec<Vec<i64>> = Vec::new();
    let mut t: usize = 0;
    while t < shapes.len()
        invariant
            cw.len() == rank <= RANK_BOUND,
            weight_wf(series, cw),
            0 <= m <= i64::MAX / 2,
            box_c == box_count(cw),
            box_c == 2 * m,
            bigint_value(dim_c) == dim_spec(series, cw),
            dyn_c@ == dynkin_spec(series, cw),
            forall|k: int| 0 <= k < shapes@.len() ==> is_shape(#[trigger] shapes@[k]@, rank as int, m as int),
            t <= shapes@.len(),
            list_wf(series, rank as int, res@, dims@, dyns@),
            all_precede(res@, series, cw),
            forall|w: Seq<i64>|
                w.len() == rank && weight_wf(series, w) && precedes(series, w, series, cw) && holds_vec(
                    shapes@.take(t as int),
                    magnitudes(w),
                ) ==> #[trigger] holds_weight(res@, w),
        decreases shapes@.len() - t,
    {
        let v = shapes[t].as_slice();
        proof {
            lemma_shape_weights(series, v@, m as int);
            lemma_head_sum_mono(v@, 0, rank as int);
        }
        let total = shape_total(v, Ghost(m as int));
        let bw = 2 * total;
        let ghost r0 = res@;
        let w1 = copy_vec(v);
        consider(series, w1, bw, Ghost(cw), box_c, &dim_c, dyn_c.as_slice(), &mut res, &mut dims, &mut dyns);
        let ghost r1 = res@;
        let last = rank - 1;
        let neg = series == Series::D && v[last] > 0;
        if neg {
            let mut w2 = copy_vec(v);
            w2.set(last, -v[last]);
            consider(series, w2, bw, Ghost(cw), box_c, &dim_c, dyn_c.as_slice(), &mut res, &mut dims, &mut dyns);
        }
        proof {
            assert forall|w: Seq<i64>|
                w.len() == rank && weight_wf(series, w) && precedes(series, w, series, cw) && holds_vec(
                    shapes@.take(t + 1),
                    magnitudes(w),
                ) implies #[trigger] holds_weight(res@, w) by {
                let k = choose|k: int| 0 <= k < t + 1 && #[trigger] shapes@.take(t + 1)[k]@ == magnitudes(w);
                if k < t {
                    assert(shapes@.take(t as int)[k] == shapes@.take(t + 1)[k]);
                    assert(holds_vec(shapes@.take(t as int), magnitudes(w)));
                    assert(holds_weight(r0, w));
                    assert(holds_weight(r1, w));
                } else {
                    lemma_weight_magnitudes(series, w);
                    assert(magnitudes(w) == v@);
                    if w[rank - 1] >= 0 {
                        assert(w == v@);
                        assert(holds_weight(r1, w));
                    } else {
                        assert(w =~= v@.update(rank - 1, -v@[rank - 1] as i64));
                    }
                }
            }
        }
        t = t + 1;
    }
    proof {
        assert forall|w: Seq<i64>|
            w.len() == rank && weight_wf(series, w) && precedes(series, w, series, cw)
                implies #[trigger] holds_weight(res@, w) by {
            lemma_weight_magnitudes(series, w);
            assert(is_shape(magnitudes(w), rank as int, m as int));
            assert(magnitudes(w).subrange(0, 0) =~= cur@.subrange(0, 0));
            assert(holds_vec(shapes@, magnitudes(w)));
            assert(shapes@.take(shapes@.len() as int) =~= shapes@);
        }
        assert forall|k: int| 0 <= k < res@.len() - 1 implies listed_before(
            dim_spec(series, (#[trigger] res@[k]).weight_spec()),
            dynkin_spec(series, res@[k].weight_spec()),
            dim_spec(series, res@[k + 1].weight_spec()),
            dynkin_spec(series, res@[k + 1].weight_spec()),
        ) by {
            assert(listed_before(
                bigint_value(dims@[k]),
                dyns@[k]@,
                bigint_value(dims@[k + 1]),
                dyns@[k + 1]@,
            ));
            assert(res@[k + 1].series_spec() == series);
        }
    }
    res
}

} // verus!
