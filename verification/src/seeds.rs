//! Exact defining-representation generator seeds of the B/C/D series and the
//! exact commutator self-check that gates them.
//!
//! A seed holds, for the defining representation of `B_r = SO(2r+1)`,
//! `C_r = Sp(2r)` or `D_r = SO(2r)`, the `r` simple-root raising operators
//! `Sp[i]` as sparse `(row, col, value)` records and the `r` diagonal Cartan
//! generators `Sz[i]` as integer diagonals, all in the QSpace basis: unit
//! ladder entries and integer, traceless, mutually orthogonal Cartan
//! diagonals. Every entry is an integer, so the self-check is exact.
//!
//! The spinor seeds of `B_r` and `D_r` live on the fermionic Fock space of
//! `r` modes, with half-integer Cartan eigenvalues (a Cartan scale `1/2`)
//! and, for `B_r`, the squared ladder scale `1/2` of the short root.

use vstd::prelude::*;
use num_rational::Ratio;
use crate::bcd::{min_rank_spec, BcdError, Series};
use crate::bignum::{
    big_add, big_eq, big_from_i64, big_mul, bigint_value, frac_eq, ratio64_denom, ratio64_new,
    ratio64_numer, ratio64_one, ratio64_parts,
};
use crate::primefactor::{series_upto, series_frac};

verus! {

/// Largest rank a seed is built for: keeps every index and diagonal entry of
/// the seed within machine integers.
pub const SEED_RANK_BOUND: usize = 1073741824;

/// The exact generator seed of one B/C/D representation.
///
/// `sp[i]` holds the non-zero `(row, col, value)` records of the `i`-th
/// raising operator, `sz[i]` the diagonal of the `i`-th Cartan operator. The
/// operators are `Sz[i] = sz_scale · sz[i]` and
/// `Sp[i] = sqrt(sp_scale2[i]) · sp[i]`.
#[derive(Debug, PartialEq, Eq)]
pub struct Seed {
    series: Series,
    rank: usize,
    dim: usize,
    sp: Vec<Vec<(usize, usize, i64)>>,
    sz: Vec<Vec<i64>>,
    sz_scale: Ratio<i64>,
    sp_scale2: Vec<Ratio<i64>>,
}

impl Seed {
    /// The raising records.
    pub closed spec fn raising_spec(&self) -> Seq<Seq<(usize, usize, i64)>> {
        self.sp@.map_values(|v: Vec<(usize, usize, i64)>| v@)
    }

    /// The Cartan diagonals.
    pub closed spec fn cartan_spec(&self) -> Seq<Seq<i64>> {
        self.sz@.map_values(|v: Vec<i64>| v@)
    }

    /// The series.
    pub closed spec fn series_spec(&self) -> Series {
        self.series
    }

    /// The rank.
    pub closed spec fn rank_spec(&self) -> nat {
        self.rank as nat
    }

    /// The dimension of the carrier.
    pub closed spec fn dim_spec(&self) -> nat {
        self.dim as nat
    }

    /// The Cartan scale.
    pub closed spec fn cartan_scale_spec(&self) -> Ratio<i64> {
        self.sz_scale
    }

    /// The squared raising scales.
    pub closed spec fn raising_scale2_spec(&self) -> Seq<Ratio<i64>> {
        self.sp_scale2@
    }

    /// The shape every seed has: `rank` raising and Cartan operators over a
    /// `dim`-dimensional carrier, every raising operator with at least one
    /// in-range non-zero record, and non-zero scales with positive
    /// denominators.
    #[verifier::type_invariant]
    pub closed spec fn wf(&self) -> bool {
        &&& self.rank >= 1
        &&& self.sp@.len() == self.rank
        &&& self.sz@.len() == self.rank
        &&& self.sp_scale2@.len() == self.rank
        &&& forall|i: int| 0 <= i < self.rank ==> (#[trigger] self.sz@[i])@.len() == self.dim
        &&& forall|i: int| 0 <= i < self.rank ==> records_ok((#[trigger] self.sp@[i])@, self.dim as int)
        &&& ratio64_denom(self.sz_scale) > 0
        &&& ratio64_numer(self.sz_scale) != 0
        &&& forall|i: int|
            0 <= i < self.rank ==> ratio64_denom(#[trigger] self.sp_scale2@[i]) > 0 && ratio64_numer(
                self.sp_scale2@[i],
            ) != 0
    }

    /// Assemble a seed from parts that have the shape of every seed.
    pub(crate) fn from_parts(
        series: Series,
        rank: usize,
        dim: usize,
        sp: Vec<Vec<(usize, usize, i64)>>,
        sz: Vec<Vec<i64>>,
        sz_scale: Ratio<i64>,
        sp_scale2: Vec<Ratio<i64>>,
    ) -> (seed: Seed)
        requires
            rank >= 1,
            sp@.len() == rank,
            sz@.len() == rank,
            sp_scale2@.len() == rank,
            forall|i: int| 0 <= i < rank ==> (#[trigger] sz@[i])@.len() == dim,
            forall|i: int| 0 <= i < rank ==> records_ok((#[trigger] sp@[i])@, dim as int),
            ratio64_denom(sz_scale) > 0,
            ratio64_numer(sz_scale) != 0,
            forall|i: int|
                0 <= i < rank ==> ratio64_denom(#[trigger] sp_scale2@[i]) > 0 && ratio64_numer(
                    sp_scale2@[i],
                ) != 0,
        ensures
            seed.series_spec() == series,
            seed.rank_spec() == rank,
            seed.dim_spec() == dim,
            seed.raising_spec() == sp@.map_values(|v: Vec<(usize, usize, i64)>| v@),
            seed.cartan_spec() == sz@.map_values(|v: Vec<i64>| v@),
            seed.cartan_scale_spec() == sz_scale,
            seed.raising_scale2_spec() == sp_scale2@,
    {
        Seed { series, rank, dim, sp, sz, sz_scale, sp_scale2 }
    }

    /// The series (`B`, `C` or `D`).
    pub fn series(&self) -> (s: Series)
        ensures
            s == self.series_spec(),
    {
        self.series
    }

    /// The rank `r` (number of raising and Cartan operators).
    pub fn rank(&self) -> (r: usize)
        ensures
            r == self.rank_spec(),
    {
        self.rank
    }

    /// The dimension of the carrier (matrix size).
    pub fn dim(&self) -> (d: usize)
        ensures
            d == self.dim_spec(),
    {
        self.dim
    }

    /// The raising operators, each a list of non-zero `(row, col, value)`
    /// records.
    pub fn raising(&self) -> (s: &[Vec<(usize, usize, i64)>])
        ensures
            s@.map_values(|v: Vec<(usize, usize, i64)>| v@) == self.raising_spec(),
    {
        self.sp.as_slice()
    }

    /// The Cartan generators, each as its diagonal of records; the operator
    /// is [`cartan_scale`](Self::cartan_scale) times this.
    pub fn cartan(&self) -> (s: &[Vec<i64>])
        ensures
            s@.map_values(|v: Vec<i64>| v@) == self.cartan_spec(),
    {
        self.sz.as_slice()
    }

    /// The common rational scale of the Cartan records.
    pub fn cartan_scale(&self) -> (s: Ratio<i64>)
        ensures
            s == self.cartan_scale_spec(),
    {
        self.sz_scale
    }

    /// Replace the records of raising operator `i` by `recs` (in range and
    /// non-zero), keeping everything else.
    pub fn replace_raising(&mut self, i: usize, recs: Vec<(usize, usize, i64)>)
        requires
            i < old(self).rank_spec(),
            records_ok(recs@, old(self).dim_spec() as int),
        ensures
            final(self).raising_spec() == old(self).raising_spec().update(i as int, recs@),
            final(self).cartan_spec() == old(self).cartan_spec(),
            final(self).series_spec() == old(self).series_spec(),
            final(self).rank_spec() == old(self).rank_spec(),
            final(self).dim_spec() == old(self).dim_spec(),
            final(self).cartan_scale_spec() == old(self).cartan_scale_spec(),
            final(self).raising_scale2_spec() == old(self).raising_scale2_spec(),
    {
        proof {
            use_type_invariant(&*self);
        }
        let mut sp: Vec<Vec<(usize, usize, i64)>> = Vec::new();
        let mut recs = recs;
        let mut k: usize = 0;
        while k < self.rank
            invariant
                k <= self.rank,
                self.rank == self.sp@.len(),
                i < self.rank,
                records_ok(recs@, self.dim as int),
                forall|a: int| 0 <= a < self.rank ==> records_ok((#[trigger] self.sp@[a])@, self.dim as int),
                sp@.len() == k,
                forall|a: int| 0 <= a < k ==> (#[trigger] sp@[a])@ == (if a == i {
                    recs@
                } else {
                    self.sp@[a]@
                }),
            decreases self.rank - k,
        {
            if k == i {
                sp.push(copy_records(&recs));
            } else {
                sp.push(copy_records(&self.sp[k]));
            }
            k = k + 1;
        }
        std::mem::swap(&mut self.sp, &mut sp);
        proof {
            assert(self.raising_spec() =~= old(self).raising_spec().update(i as int, recs@));
        }
    }

    /// Replace the diagonal of Cartan operator `i` by `z` (of the carrier's
    /// length), keeping everything else.
    pub fn replace_cartan(&mut self, i: usize, z: Vec<i64>)
        requires
            i < old(self).rank_spec(),
            z@.len() == old(self).dim_spec(),
        ensures
            final(self).cartan_spec() == old(self).cartan_spec().update(i as int, z@),
            final(self).raising_spec() == old(self).raising_spec(),
            final(self).series_spec() == old(self).series_spec(),
            final(self).rank_spec() == old(self).rank_spec(),
            final(self).dim_spec() == old(self).dim_spec(),
            final(self).cartan_scale_spec() == old(self).cartan_scale_spec(),
            final(self).raising_scale2_spec() == old(self).raising_scale2_spec(),
    {
        proof {
            use_type_invariant(&*self);
        }
        let mut sz: Vec<Vec<i64>> = Vec::new();
        let mut k: usize = 0;
        while k < self.rank
            invariant
                k <= self.rank,
                self.rank == self.sz@.len(),
                i < self.rank,
                z@.len() == self.dim,
                forall|a: int| 0 <= a < self.rank ==> (#[trigger] self.sz@[a])@.len() == self.dim,
                sz@.len() == k,
                forall|a: int| 0 <= a < k ==> (#[trigger] sz@[a])@ == (if a == i {
                    z@
                } else {
                    self.sz@[a]@
                }),
            decreases self.rank - k,
        {
            if k == i {
                sz.push(copy_diag(&z));
            } else {
                sz.push(copy_diag(&self.sz[k]));
            }
            k = k + 1;
        }
        std::mem::swap(&mut self.sz, &mut sz);
        proof {
            assert(self.cartan_spec() =~= old(self).cartan_spec().update(i as int, z@));
        }
    }

    /// The squared rational scale of raising operator `i`.
    pub fn raising_scale2(&self, i: usize) -> (s: Ratio<i64>)
        requires
            i < self.rank_spec(),
        ensures
            s == self.raising_scale2_spec()[i as int],
    {
        proof {
            use_type_invariant(self);
        }
        self.sp_scale2[i]
    }
}

/// A copy of a record list.
fn copy_records(a: &Vec<(usize, usize, i64)>) -> (v: Vec<(usize, usize, i64)>)
    ensures
        v@ == a@,
{
    let mut v: Vec<(usize, usize, i64)> = Vec::new();
    let mut k: usize = 0;
    while k < a.len()
        invariant
            k <= a@.len(),
            v@ == a@.take(k as int),
        decreases a@.len() - k,
    {
        v.push(a[k]);
        k = k + 1;
        assert(v@ =~= a@.take(k as int));
    }
    assert(a@.take(a@.len() as int) =~= a@);
    v
}

/// A copy of a diagonal.
fn copy_diag(a: &Vec<i64>) -> (v: Vec<i64>)
    ensures
        v@ == a@,
{
    let mut v: Vec<i64> = Vec::new();
    let mut k: usize = 0;
    while k < a.len()
        invariant
            k <= a@.len(),
            v@ == a@.take(k as int),
        decreases a@.len() - k,
    {
        v.push(a[k]);
        k = k + 1;
        assert(v@ =~= a@.take(k as int));
    }
    assert(a@.take(a@.len() as int) =~= a@);
    v
}

/// Records that can stand for a raising operator on a `d`-dimensional
/// carrier: at least one, all in range, all non-zero.
pub open spec fn records_ok(recs: Seq<(usize, usize, i64)>, d: int) -> bool {
    &&& recs.len() >= 1
    &&& forall|t: int|
        0 <= t < recs.len() ==> (#[trigger] recs[t]).0 < d && recs[t].1 < d && recs[t].2 != 0
}

// ---- the defining seeds -------------------------------------------------------------

/// The raising records of `Sp(2r)`'s `k`-th generator (0-based): a paired
/// short-root block for `k < r-1`, a single long-root entry for `k = r-1`.
pub open spec fn spn_raising(r: int, k: int) -> Seq<(usize, usize, i64)> {
    if k < r - 1 {
        seq![(k as usize, (k + 1) as usize, 1i64), ((2 * r - k - 2) as usize, (2 * r - k - 1) as usize, 1i64)]
    } else {
        seq![((r - 1) as usize, r as usize, 1i64)]
    }
}

/// The upper half of `Sp(2r)`'s `k`-th Cartan diagonal.
pub open spec fn spn_upper(r: int, k: int, p: int) -> int {
    if k < r - 1 {
        if p <= k {
            1
        } else if p == k + 1 {
            -(k + 1)
        } else {
            0
        }
    } else {
        1
    }
}

/// `Sp(2r)`'s `k`-th Cartan diagonal: the upper half, then its negated
/// mirror.
pub open spec fn spn_cartan(r: int, k: int) -> Seq<i64> {
    Seq::new(
        (2 * r) as nat,
        |p: int|
            (if p < r {
                spn_upper(r, k, p)
            } else {
                -spn_upper(r, k, 2 * r - 1 - p)
            }) as i64,
    )
}

/// The `k`-th Cartan diagonal of the orthogonal seeds: `+1` at `2k`, `-1` at
/// `2k+1`.
pub open spec fn so_cartan(d: int, k: int) -> Seq<i64> {
    Seq::new(
        d as nat,
        |p: int|
            if p == 2 * k {
                1i64
            } else if p == 2 * k + 1 {
                -1i64
            } else {
                0i64
            },
    )
}

/// The interior raising records of the orthogonal seeds.
pub open spec fn so_interior(k: int) -> Seq<(usize, usize, i64)> {
    seq![((2 * k + 2) as usize, (2 * k) as usize, 1i64), ((2 * k + 1) as usize, (2 * k + 3) as usize, 1i64)]
}

/// The raising records of `SO(2r+1)`'s `k`-th generator: the short root at
/// `k = r-1` touches the zero-weight state `2r`.
pub open spec fn son_raising(r: int, k: int) -> Seq<(usize, usize, i64)> {
    if k < r - 1 {
        so_interior(k)
    } else {
        seq![((2 * k + 2) as usize, 1usize, 1i64), (0usize, (2 * k + 2) as usize, 1i64)]
    }
}

/// The raising records of `SO(2r)`'s `k`-th generator: the fork at
/// `k = r-1` has the fixed entries `(2,1)` and `(0,3)`.
pub open spec fn sen_raising(r: int, k: int) -> Seq<(usize, usize, i64)> {
    if k < r - 1 {
        so_interior(k)
    } else {
        seq![(2usize, 1usize, 1i64), (0usize, 3usize, 1i64)]
    }
}

/// The dimension of the defining representation: `2r+1` for `B_r`, `2r`
/// otherwise.
pub open spec fn defining_dim(series: Series, r: int) -> int {
    if series == Series::B {
        2 * r + 1
    } else {
        2 * r
    }
}

/// The raising records of the defining seed's `k`-th generator.
pub open spec fn defining_raising(series: Series, r: int, k: int) -> Seq<(usize, usize, i64)> {
    match series {
        Series::C => spn_raising(r, k),
        Series::B => son_raising(r, k),
        Series::D => sen_raising(r, k),
    }
}

/// The defining seed's `k`-th Cartan diagonal.
pub open spec fn defining_cartan(series: Series, r: int, k: int) -> Seq<i64> {
    match series {
        Series::C => spn_cartan(r, k),
        _ => so_cartan(defining_dim(series, r), k),
    }
}

/// `seed` is the defining seed of `series` at rank `r`: the entries above
/// with unit scales.
pub open spec fn is_defining_seed(seed: Seed, series: Series, r: int) -> bool {
    &&& seed.series_spec() == series
    &&& seed.rank_spec() == r
    &&& seed.dim_spec() == defining_dim(series, r)
    &&& forall|k: int| 0 <= k < r ==> #[trigger] seed.raising_spec()[k] == defining_raising(series, r, k)
    &&& forall|k: int| 0 <= k < r ==> #[trigger] seed.cartan_spec()[k] == defining_cartan(series, r, k)
    &&& ratio64_numer(seed.cartan_scale_spec()) == 1
    &&& ratio64_denom(seed.cartan_scale_spec()) == 1
    &&& forall|k: int|
        0 <= k < r ==> ratio64_numer(#[trigger] seed.raising_scale2_spec()[k]) == 1 && ratio64_denom(
            seed.raising_scale2_spec()[k],
        ) == 1
}


/// The `i`-th (1-based) Cartan diagonal of `Sp(2r)`.
fn spn_diag(r: usize, i: usize) -> (z: Vec<i64>)
    requires
        2 <= r <= SEED_RANK_BOUND,
        1 <= i <= r,
    ensures
        z@ == spn_cartan(r as int, i - 1),
{
    let d = 2 * r;
    let mut z: Vec<i64> = Vec::new();
    let mut p: usize = 0;
    while p < r
        invariant
            2 <= r <= SEED_RANK_BOUND,
            1 <= i <= r,
            p <= r,
            z@.len() == p,
            forall|q: int| 0 <= q < p ==> z@[q] == spn_upper(r as int, i - 1, q),
        decreases r - p,
    {
        let v: i64 = if i < r {
            if p < i {
                1
            } else if p == i {
                -(i as i64)
            } else {
                0
            }
        } else {
            1
        };
        z.push(v);
        p = p + 1;
    }
    let mut j: usize = 0;
    while j < r
        invariant
            2 <= r <= SEED_RANK_BOUND,
            1 <= i <= r,
            j <= r,
            z@.len() == r + j,
            forall|q: int| 0 <= q < r ==> z@[q] == spn_upper(r as int, i - 1, q),
            forall|q: int| r <= q < r + j ==> z@[q] == -spn_upper(r as int, i - 1, 2 * r - 1 - q),
        decreases r - j,
    {
        let v = z[r - 1 - j];
        z.push(-v);
        j = j + 1;
    }
    assert(z@ =~= spn_cartan(r as int, i - 1));
    z
}

/// `Setup_SpN`: `Sp(2r)` on `2r` states.
fn setup_spn(r: usize) -> (seed: Seed)
    requires
        2 <= r <= SEED_RANK_BOUND,
    ensures
        is_defining_seed(seed, Series::C, r as int),
{
    let d = 2 * r;
    let mut sp: Vec<Vec<(usize, usize, i64)>> = Vec::new();
    let mut sz: Vec<Vec<i64>> = Vec::new();
    let mut scales: Vec<Ratio<i64>> = Vec::new();
    let mut i: usize = 1;
    while i <= r
        invariant
            2 <= r <= SEED_RANK_BOUND,
            d == 2 * r,
            1 <= i <= r + 1,
            sp@.len() == i - 1,
            sz@.len() == i - 1,
            scales@.len() == i - 1,
            forall|k: int| 0 <= k < i - 1 ==> (#[trigger] sp@[k])@ == spn_raising(r as int, k),
            forall|k: int| 0 <= k < i - 1 ==> (#[trigger] sz@[k])@ == spn_cartan(r as int, k),
            forall|k: int|
                0 <= k < i - 1 ==> ratio64_numer(#[trigger] scales@[k]) == 1 && ratio64_denom(
                    scales@[k],
                ) == 1,
        decreases r + 1 - i,
    {
        let z = spn_diag(r, i);
        let a = i - 1;
        let b = 2 * r - i;
        let b1 = b - 1;
        let rm = r - 1;
        let p: Vec<(usize, usize, i64)> = if i < r {
            vec![(a, i, 1), (b1, b, 1)]
        } else {
            vec![(rm, r, 1)]
        };
        assert(p@ =~= spn_raising(r as int, i - 1));
        sp.push(p);
        sz.push(z);
        scales.push(ratio64_one());
        i = i + 1;
    }
    let seed = Seed {
        series: Series::C,
        rank: r,
        dim: d,
        sp,
        sz,
        sz_scale: ratio64_one(),
        sp_scale2: scales,
    };
    assert(seed.raising_spec() =~= Seq::new(r as nat, |k: int| spn_raising(r as int, k)));
    assert(seed.cartan_spec() =~= Seq::new(r as nat, |k: int| spn_cartan(r as int, k)));
    seed
}


/// The `k`-th Cartan diagonal of the orthogonal seeds on `d` states.
fn so_diag(d: usize, k: usize) -> (z: Vec<i64>)
    requires
        2 * k + 1 < d,
    ensures
        z@ == so_cartan(d as int, k as int),
{
    let mut z: Vec<i64> = Vec::new();
    let mut p: usize = 0;
    while p < d
        invariant
            2 * k + 1 < d,
            p <= d,
            z@.len() == p,
            forall|q: int| 0 <= q < p ==> z@[q] == so_cartan(d as int, k as int)[q],
        decreases d - p,
    {
        let v: i64 = if p == 2 * k {
            1
        } else if p == 2 * k + 1 {
            -1
        } else {
            0
        };
        z.push(v);
        p = p + 1;
    }
    assert(z@ =~= so_cartan(d as int, k as int));
    z
}

/// `Setup_SON` (`odd`) and `Setup_SEN` (`!odd`): `SO(2r+1)` on `2r+1`
/// states, `SO(2r)` on `2r` states.
fn setup_so(r: usize, odd: bool) -> (seed: Seed)
    requires
        2 <= r <= SEED_RANK_BOUND,
        !odd ==> r >= 3,
    ensures
        odd ==> is_defining_seed(seed, Series::B, r as int),
        !odd ==> is_defining_seed(seed, Series::D, r as int),
{
    let series = if odd {
        Series::B
    } else {
        Series::D
    };
    let d = if odd {
        2 * r + 1
    } else {
        2 * r
    };
    let mut sp: Vec<Vec<(usize, usize, i64)>> = Vec::new();
    let mut sz: Vec<Vec<i64>> = Vec::new();
    let mut scales: Vec<Ratio<i64>> = Vec::new();
    let mut i: usize = 1;
    while i <= r
        invariant
            2 <= r <= SEED_RANK_BOUND,
            !odd ==> r >= 3,
            series == (if odd {
                Series::B
            } else {
                Series::D
            }),
            d == defining_dim(series, r as int),
            1 <= i <= r + 1,
            sp@.len() == i - 1,
            sz@.len() == i - 1,
            scales@.len() == i - 1,
            forall|k: int|
                0 <= k < i - 1 ==> (#[trigger] sp@[k])@ == defining_raising(series, r as int, k),
            forall|k: int|
                0 <= k < i - 1 ==> (#[trigger] sz@[k])@ == defining_cartan(series, r as int, k),
            forall|k: int|
                0 <= k < i - 1 ==> ratio64_numer(#[trigger] scales@[k]) == 1 && ratio64_denom(
                    scales@[k],
                ) == 1,
        decreases r + 1 - i,
    {
        let i2 = 2 * (i - 1);
        let z = so_diag(d, i - 1);
        let a = i2 + 1;
        let b = i2 + 2;
        let c = i2 + 3;
        let p: Vec<(usize, usize, i64)> = if i < r {
            vec![(b, i2, 1), (a, c, 1)]
        } else if odd {
            vec![(b, 1, 1), (0, b, 1)]
        } else {
            vec![(2, 1, 1), (0, 3, 1)]
        };
        assert(p@ =~= defining_raising(series, r as int, i - 1));
        sp.push(p);
        sz.push(z);
        scales.push(ratio64_one());
        i = i + 1;
    }
    let seed = Seed { series, rank: r, dim: d, sp, sz, sz_scale: ratio64_one(), sp_scale2: scales };
    seed
}

/// The exact defining-representation seed of `series` at rank `r`: the
/// vector (`B`, `D`) or fundamental (`C`) representation, on `2r+1` (`B`) or
/// `2r` (`C`, `D`) states.
///
/// The low-rank isomorphisms `B_1`, `C_1`, `D_2` (and rank 0) are
/// [`BcdError::ExcludedRank`], with redirection.
pub fn defining_seed(series: Series, r: usize) -> (res: Result<Seed, BcdError>)
    requires
        r <= SEED_RANK_BOUND,
    ensures
        r < min_rank_spec(series) <==> res is Err,
        res matches Err(e) ==> (e matches BcdError::ExcludedRank { series: s, rank, redirect } && s
            == series && rank == r && (series == Series::D ==> redirect@ == "use SU(2)×SU(2) instead"@)
            && (series != Series::D ==> redirect@ == "use SU(2) instead"@)),
        res matches Ok(seed) ==> is_defining_seed(seed, series, r as int),
{
    if r < series.min_rank() {
        return Err(BcdError::ExcludedRank { series, rank: r, redirect: series.low_rank_redirect() });
    }
    let seed = match series {
        Series::C => setup_spn(r),
        Series::B => setup_so(r, true),
        Series::D => setup_so(r, false),
    };
    Ok(seed)
}


// ---- the matrix model -----------------------------------------------------------------

/// The entries of a sequence of `i64` as integers.
pub open spec fn ints(s: Seq<i64>) -> Seq<int> {
    s.map_values(|x: i64| x as int)
}

/// The rows of a matrix of `i64` as integer sequences.
pub open spec fn mat_int(m: Seq<Vec<i64>>) -> Seq<Seq<int>> {
    m.map_values(|row: Vec<i64>| ints(row@))
}

/// Entry `(row, col)` of the matrix given by sparse records: the value of the
/// last record at that position, `0` if there is none.
pub open spec fn record_entry(recs: Seq<(usize, usize, i64)>, row: int, col: int) -> int
    decreases recs.len(),
{
    if recs.len() == 0 {
        0
    } else if recs.last().0 == row && recs.last().1 == col {
        recs.last().2 as int
    } else {
        record_entry(recs.drop_last(), row, col)
    }
}

/// The `d × d` matrix of sparse records.
pub open spec fn dense_spec(recs: Seq<(usize, usize, i64)>, d: int) -> Seq<Seq<int>> {
    Seq::new(d as nat, |row: int| Seq::new(d as nat, |col: int| record_entry(recs, row, col)))
}

/// The `d × d` diagonal matrix with diagonal `z`.
pub open spec fn diag_spec(z: Seq<int>, d: int) -> Seq<Seq<int>> {
    Seq::new(
        d as nat,
        |row: int|
            Seq::new(
                d as nat,
                |col: int|
                    if row == col {
                        z[row]
                    } else {
                        0
                    },
            ),
    )
}

/// The transpose of a `d × d` matrix.
pub open spec fn transpose_spec(a: Seq<Seq<int>>, d: int) -> Seq<Seq<int>> {
    Seq::new(d as nat, |row: int| Seq::new(d as nat, |col: int| a[col][row]))
}

/// `Σ_{k<n} a[row][k] · b[k][col]`.
pub open spec fn dot_upto(a: Seq<Seq<int>>, b: Seq<Seq<int>>, row: int, col: int, n: int) -> int
    decreases n,
{
    if n <= 0 {
        0
    } else {
        dot_upto(a, b, row, col, n - 1) + a[row][n - 1] * b[n - 1][col]
    }
}

/// The product of two `d × d` matrices.
pub open spec fn matmul_spec(a: Seq<Seq<int>>, b: Seq<Seq<int>>, d: int) -> Seq<Seq<int>> {
    Seq::new(d as nat, |row: int| Seq::new(d as nat, |col: int| dot_upto(a, b, row, col, d)))
}

/// The commutator `[A, B] = AB - BA` of two `d × d` matrices.
pub open spec fn commutator_spec(a: Seq<Seq<int>>, b: Seq<Seq<int>>, d: int) -> Seq<Seq<int>> {
    Seq::new(
        d as nat,
        |row: int|
            Seq::new(
                d as nat,
                |col: int| matmul_spec(a, b, d)[row][col] - matmul_spec(b, a, d)[row][col],
            ),
    )
}

/// `Σ_{k<n} u[k] · v[k]`: the Frobenius product of two diagonals.
pub open spec fn fro_spec(u: Seq<int>, v: Seq<int>, n: int) -> int
    decreases n,
{
    if n <= 0 {
        0
    } else {
        fro_spec(u, v, n - 1) + u[n - 1] * v[n - 1]
    }
}

/// Every entry of a `d × d` matrix has magnitude at most `b`.
pub open spec fn mat_bounded(m: Seq<Seq<int>>, d: int, b: int) -> bool {
    &&& m.len() == d
    &&& forall|row: int| 0 <= row < d ==> (#[trigger] m[row]).len() == d
    &&& forall|row: int, col: int| 0 <= row < d && 0 <= col < d ==> -b <= #[trigger] m[row][col] <= b
}

/// Whether `m` is the integer view of a `d × d` matrix of `i64`.
pub open spec fn is_matrix(m: Seq<Vec<i64>>, d: int) -> bool {
    &&& m.len() == d
    &&& forall|row: int| 0 <= row < d ==> (#[trigger] m[row])@.len() == d
}

/// A `d × d` matrix of zeros.
fn zeros(d: usize) -> (m: Vec<Vec<i64>>)
    ensures
        is_matrix(m@, d as int),
        mat_int(m@) == Seq::new(d as nat, |row: int| Seq::new(d as nat, |col: int| 0int)),
{
    let mut m: Vec<Vec<i64>> = Vec::new();
    let mut i: usize = 0;
    while i < d
        invariant
            i <= d,
            m@.len() == i,
            forall|row: int| 0 <= row < i ==> (#[trigger] m@[row])@ == Seq::new(d as nat, |col: int| 0i64),
        decreases d - i,
    {
        let mut row: Vec<i64> = Vec::new();
        let mut j: usize = 0;
        while j < d
            invariant
                j <= d,
                row@ == Seq::new(j as nat, |col: int| 0i64),
            decreases d - j,
        {
            row.push(0);
            j = j + 1;
            assert(row@ =~= Seq::new(j as nat, |col: int| 0i64));
        }
        m.push(row);
        i = i + 1;
    }
    assert(mat_int(m@) =~= Seq::new(d as nat, |row: int| Seq::new(d as nat, |col: int| 0int))) by {
        assert forall|row: int| 0 <= row < d implies #[trigger] mat_int(m@)[row] =~= Seq::new(
            d as nat,
            |col: int| 0int,
        ) by {
            assert(m@[row]@ == Seq::new(d as nat, |col: int| 0i64));
        }
    }
    m
}

/// Set entry `(row, col)` of a matrix.
fn set_entry(m: &mut Vec<Vec<i64>>, row: usize, col: usize, v: i64)
    requires
        is_matrix(old(m)@, old(m)@.len() as int),
        row < old(m)@.len(),
        col < old(m)@.len(),
    ensures
        is_matrix(final(m)@, old(m)@.len() as int),
        mat_int(final(m)@) == mat_int(old(m)@).update(
            row as int,
            mat_int(old(m)@)[row as int].update(col as int, v as int),
        ),
{
    let mut r = m[row].clone();
    assert(r@ == old(m)@[row as int]@);
    r.set(col, v);
    let ghost before = m@;
    m.set(row, r);
    assert(mat_int(m@) =~= mat_int(before).update(
        row as int,
        mat_int(before)[row as int].update(col as int, v as int),
    )) by {
        assert(ints(r@) =~= mat_int(before)[row as int].update(col as int, v as int));
    }
}

/// The `d × d` matrix of sparse records.
fn dense(recs: &Vec<(usize, usize, i64)>, d: usize) -> (m: Vec<Vec<i64>>)
    requires
        forall|t: int| 0 <= t < recs@.len() ==> (#[trigger] recs@[t]).0 < d && recs@[t].1 < d,
    ensures
        is_matrix(m@, d as int),
        mat_int(m@) == dense_spec(recs@, d as int),
{
    let mut m = zeros(d);
    proof {
        let s0 = recs@.take(0);
        assert forall|rr: int| 0 <= rr < d implies #[trigger] mat_int(m@)[rr] =~= dense_spec(
            s0,
            d as int,
        )[rr] by {}
        assert(mat_int(m@) =~= dense_spec(s0, d as int));
    }
    let mut t: usize = 0;
    while t < recs.len()
        invariant
            t <= recs@.len(),
            forall|u: int| 0 <= u < recs@.len() ==> (#[trigger] recs@[u]).0 < d && recs@[u].1 < d,
            is_matrix(m@, d as int),
            mat_int(m@) == dense_spec(recs@.take(t as int), d as int),
        decreases recs@.len() - t,
    {
        let (row, col, v) = recs[t];
        set_entry(&mut m, row, col, v);
        proof {
            let s = recs@.take(t as int + 1);
            assert(s.drop_last() =~= recs@.take(t as int));
            assert(mat_int(m@) =~= dense_spec(s, d as int)) by {
                assert forall|rr: int| 0 <= rr < d implies #[trigger] mat_int(m@)[rr] =~= dense_spec(
                    s,
                    d as int,
                )[rr] by {}
            }
        }
        t = t + 1;
    }
    assert(recs@.take(recs@.len() as int) =~= recs@);
    m
}


/// The `d × d` diagonal matrix with diagonal `z`.
fn diag(z: &Vec<i64>, d: usize) -> (m: Vec<Vec<i64>>)
    requires
        z@.len() == d,
    ensures
        is_matrix(m@, d as int),
        mat_int(m@) == diag_spec(ints(z@), d as int),
{
    let mut m = zeros(d);
    let mut p: usize = 0;
    while p < d
        invariant
            z@.len() == d,
            p <= d,
            is_matrix(m@, d as int),
            forall|row: int, col: int|
                0 <= row < d && 0 <= col < d ==> #[trigger] mat_int(m@)[row][col] == (if row == col
                    && row < p {
                    z@[row] as int
                } else {
                    0
                }),
        decreases d - p,
    {
        set_entry(&mut m, p, p, z[p]);
        p = p + 1;
    }
    assert(mat_int(m@) =~= diag_spec(ints(z@), d as int)) by {
        assert forall|row: int| 0 <= row < d implies #[trigger] mat_int(m@)[row] =~= diag_spec(
            ints(z@),
            d as int,
        )[row] by {}
    }
    m
}

/// The transpose of a `d × d` matrix.
fn transpose(a: &Vec<Vec<i64>>, d: usize) -> (t: Vec<Vec<i64>>)
    requires
        is_matrix(a@, d as int),
    ensures
        is_matrix(t@, d as int),
        mat_int(t@) == transpose_spec(mat_int(a@), d as int),
{
    let mut t: Vec<Vec<i64>> = Vec::new();
    let mut row: usize = 0;
    while row < d
        invariant
            is_matrix(a@, d as int),
            row <= d,
            t@.len() == row,
            forall|r: int| 0 <= r < row ==> ints((#[trigger] t@[r])@) == transpose_spec(mat_int(a@), d as int)[r],
            forall|r: int| 0 <= r < row ==> (#[trigger] t@[r])@.len() == d,
        decreases d - row,
    {
        let mut rv: Vec<i64> = Vec::new();
        let mut col: usize = 0;
        while col < d
            invariant
                is_matrix(a@, d as int),
                row < d,
                col <= d,
                rv@.len() == col,
                forall|c: int| 0 <= c < col ==> rv@[c] == a@[c]@[row as int],
            decreases d - col,
        {
            rv.push(a[col][row]);
            col = col + 1;
        }
        assert(ints(rv@) =~= transpose_spec(mat_int(a@), d as int)[row as int]);
        t.push(rv);
        row = row + 1;
    }
    assert(mat_int(t@) =~= transpose_spec(mat_int(a@), d as int));
    t
}

/// `|Σ_{k<n} a[row][k] b[k][col]| ≤ n · 2^20` for entries bounded by `2^10`.
proof fn lemma_dot_bound(a: Seq<Seq<int>>, b: Seq<Seq<int>>, d: int, row: int, col: int, n: int)
    requires
        0 <= row < d,
        0 <= col < d,
        0 <= n <= d,
        mat_bounded(a, d, 1024),
        mat_bounded(b, d, 1024),
    ensures
        -n * 1048576 <= dot_upto(a, b, row, col, n) <= n * 1048576,
    decreases n,
{
    if n > 0 {
        lemma_dot_bound(a, b, d, row, col, n - 1);
        let (x, y) = (a[row][n - 1], b[n - 1][col]);
        assert(-1048576 <= x * y <= 1048576) by (nonlinear_arith)
            requires
                -1024 <= x <= 1024,
                -1024 <= y <= 1024,
        ;
    }
}

/// The product of two `d × d` matrices with entries bounded by `2^10`.
fn matmul(a: &Vec<Vec<i64>>, b: &Vec<Vec<i64>>, d: usize) -> (m: Vec<Vec<i64>>)
    requires
        d <= 1024,
        is_matrix(a@, d as int),
        is_matrix(b@, d as int),
        mat_bounded(mat_int(a@), d as int, 1024),
        mat_bounded(mat_int(b@), d as int, 1024),
    ensures
        is_matrix(m@, d as int),
        mat_int(m@) == matmul_spec(mat_int(a@), mat_int(b@), d as int),
        mat_bounded(mat_int(m@), d as int, 1073741824),
{
    let ghost (sa, sb) = (mat_int(a@), mat_int(b@));
    let mut m: Vec<Vec<i64>> = Vec::new();
    let mut row: usize = 0;
    while row < d
        invariant
            d <= 1024,
            is_matrix(a@, d as int),
            is_matrix(b@, d as int),
            sa == mat_int(a@),
            sb == mat_int(b@),
            mat_bounded(sa, d as int, 1024),
            mat_bounded(sb, d as int, 1024),
            row <= d,
            m@.len() == row,
            forall|r: int| 0 <= r < row ==> (#[trigger] m@[r])@.len() == d,
            forall|r: int| 0 <= r < row ==> ints((#[trigger] m@[r])@) == matmul_spec(sa, sb, d as int)[r],
        decreases d - row,
    {
        let mut rv: Vec<i64> = Vec::new();
        let mut c0: usize = 0;
        while c0 < d
            invariant
                c0 <= d,
                rv@.len() == c0,
                forall|c: int| 0 <= c < c0 ==> rv@[c] == 0,
            decreases d - c0,
        {
            rv.push(0);
            c0 = c0 + 1;
        }
        let mut k: usize = 0;
        while k < d
            invariant
                d <= 1024,
                is_matrix(a@, d as int),
                is_matrix(b@, d as int),
                sa == mat_int(a@),
                sb == mat_int(b@),
                mat_bounded(sa, d as int, 1024),
                mat_bounded(sb, d as int, 1024),
                row < d,
                k <= d,
                rv@.len() == d,
                forall|c: int| 0 <= c < d ==> rv@[c] == dot_upto(sa, sb, row as int, c, k as int),
            decreases d - k,
        {
            let aik = a[row][k];
            assert(aik == sa[row as int][k as int]);
            if aik != 0 {
                let mut col: usize = 0;
                while col < d
                    invariant
                        d <= 1024,
                        is_matrix(a@, d as int),
                        is_matrix(b@, d as int),
                        sa == mat_int(a@),
                        sb == mat_int(b@),
                        mat_bounded(sa, d as int, 1024),
                        mat_bounded(sb, d as int, 1024),
                        row < d,
                        k < d,
                        col <= d,
                        aik == sa[row as int][k as int],
                        rv@.len() == d,
                        forall|c: int|
                            0 <= c < col ==> rv@[c] == dot_upto(sa, sb, row as int, c, k as int + 1),
                        forall|c: int|
                            col <= c < d ==> rv@[c] == dot_upto(sa, sb, row as int, c, k as int),
                    decreases d - col,
                {
                    proof {
                        lemma_dot_bound(sa, sb, d as int, row as int, col as int, k as int);
                        lemma_dot_bound(sa, sb, d as int, row as int, col as int, k as int + 1);
                        assert(sb[k as int][col as int] == b@[k as int]@[col as int]);
                    }
                    let v = rv[col] + aik * b[k][col];
                    rv.set(col, v);
                    col = col + 1;
                }
            } else {
                proof {
                    assert forall|c: int| 0 <= c < d implies rv@[c] == dot_upto(
                        sa,
                        sb,
                        row as int,
                        c,
                        k as int + 1,
                    ) by {
                        assert(sa[row as int][k as int] * sb[k as int][c] == 0);
                    }
                }
            }
            k = k + 1;
        }
        assert(ints(rv@) =~= matmul_spec(sa, sb, d as int)[row as int]);
        m.push(rv);
        row = row + 1;
    }
    assert(mat_int(m@) =~= matmul_spec(sa, sb, d as int));
    proof {
        assert forall|r: int, c: int| 0 <= r < d && 0 <= c < d implies -1073741824
            <= #[trigger] mat_int(m@)[r][c] <= 1073741824 by {
            lemma_dot_bound(sa, sb, d as int, r, c, d as int);
        }
    }
    m
}

/// The commutator `AB - BA` of two `d × d` matrices with entries bounded by
/// `2^10`.
fn commutator(a: &Vec<Vec<i64>>, b: &Vec<Vec<i64>>, d: usize) -> (c: Vec<Vec<i64>>)
    requires
        d <= 1024,
        is_matrix(a@, d as int),
        is_matrix(b@, d as int),
        mat_bounded(mat_int(a@), d as int, 1024),
        mat_bounded(mat_int(b@), d as int, 1024),
    ensures
        is_matrix(c@, d as int),
        mat_int(c@) == commutator_spec(mat_int(a@), mat_int(b@), d as int),
        mat_bounded(mat_int(c@), d as int, 2147483648),
{
    let ab = matmul(a, b, d);
    let ba = matmul(b, a, d);
    let ghost spec = commutator_spec(mat_int(a@), mat_int(b@), d as int);
    let mut c: Vec<Vec<i64>> = Vec::new();
    let mut row: usize = 0;
    while row < d
        invariant
            is_matrix(ab@, d as int),
            is_matrix(ba@, d as int),
            mat_int(ab@) == matmul_spec(mat_int(a@), mat_int(b@), d as int),
            mat_int(ba@) == matmul_spec(mat_int(b@), mat_int(a@), d as int),
            mat_bounded(mat_int(ab@), d as int, 1073741824),
            mat_bounded(mat_int(ba@), d as int, 1073741824),
            spec == commutator_spec(mat_int(a@), mat_int(b@), d as int),
            row <= d,
            c@.len() == row,
            forall|r: int| 0 <= r < row ==> (#[trigger] c@[r])@.len() == d,
            forall|r: int| 0 <= r < row ==> ints((#[trigger] c@[r])@) == spec[r],
        decreases d - row,
    {
        let mut rv: Vec<i64> = Vec::new();
        let mut col: usize = 0;
        while col < d
            invariant
                is_matrix(ab@, d as int),
                is_matrix(ba@, d as int),
                mat_int(ab@) == matmul_spec(mat_int(a@), mat_int(b@), d as int),
                mat_int(ba@) == matmul_spec(mat_int(b@), mat_int(a@), d as int),
                mat_bounded(mat_int(ab@), d as int, 1073741824),
                mat_bounded(mat_int(ba@), d as int, 1073741824),
                spec == commutator_spec(mat_int(a@), mat_int(b@), d as int),
                row < d,
                col <= d,
                rv@.len() == col,
                forall|cc: int| 0 <= cc < col ==> rv@[cc] == spec[row as int][cc],
            decreases d - col,
        {
            assert(mat_int(ab@)[row as int][col as int] == ab@[row as int]@[col as int]);
            assert(mat_int(ba@)[row as int][col as int] == ba@[row as int]@[col as int]);
            rv.push(ab[row][col] - ba[row][col]);
            col = col + 1;
        }
        assert(ints(rv@) =~= spec[row as int]);
        c.push(rv);
        row = row + 1;
    }
    assert(mat_int(c@) =~= spec);
    c
}

/// `Σ_{k<n} u[k] · v[k]` for `|u| ≤ 2^31`, `|v| ≤ 2^10`, `n ≤ 2^10`.
fn fro_diag(u: &Vec<i64>, v: &Vec<i64>) -> (s: i64)
    requires
        u@.len() == v@.len(),
        u@.len() <= 1024,
        forall|k: int| 0 <= k < u@.len() ==> -2147483648 <= #[trigger] u@[k] <= 2147483648,
        forall|k: int| 0 <= k < v@.len() ==> -1024 <= #[trigger] v@[k] <= 1024,
    ensures
        s == fro_spec(ints(u@), ints(v@), u@.len() as int),
        -u@.len() * 2199023255552 <= s <= u@.len() * 2199023255552,
{
    let n = u.len();
    let mut acc: i64 = 0;
    let mut k: usize = 0;
    while k < n
        invariant
            n == u@.len(),
            u@.len() == v@.len(),
            n <= 1024,
            forall|q: int| 0 <= q < n ==> -2147483648 <= #[trigger] u@[q] <= 2147483648,
            forall|q: int| 0 <= q < n ==> -1024 <= #[trigger] v@[q] <= 1024,
            k <= n,
            acc == fro_spec(ints(u@), ints(v@), k as int),
            -k * 2199023255552 <= acc <= k * 2199023255552,
        decreases n - k,
    {
        let (x, y) = (u[k], v[k]);
        assert(-2199023255552 <= x * y <= 2199023255552) by (nonlinear_arith)
            requires
                -2147483648 <= x <= 2147483648,
                -1024 <= y <= 1024,
        ;
        acc = acc + x * y;
        k = k + 1;
    }
    acc
}


// ---- the commutator relations ----------------------------------------------------------

/// The dense matrix of raising operator `i`.
pub open spec fn seed_sp(seed: Seed, i: int) -> Seq<Seq<int>> {
    dense_spec(seed.raising_spec()[i], seed.dim_spec() as int)
}

/// The diagonal of Cartan operator `k`, as integers.
pub open spec fn seed_sz(seed: Seed, k: int) -> Seq<int> {
    ints(seed.cartan_spec()[k])
}

/// `[Sp_i, Sp_i^†]` on the records.
pub open spec fn ladder_comm(seed: Seed, i: int) -> Seq<Seq<int>> {
    let d = seed.dim_spec() as int;
    commutator_spec(seed_sp(seed, i), transpose_spec(seed_sp(seed, i), d), d)
}

/// The Frobenius product of `[Sp_i, Sp_i^†]` with `Sz_k`: the numerator of
/// its projection on `Sz_k`.
pub open spec fn proj_num(seed: Seed, i: int, k: int) -> int {
    let d = seed.dim_spec() as int;
    fro_spec(Seq::new(d as nat, |p: int| ladder_comm(seed, i)[p][p]), seed_sz(seed, k), d)
}

/// `⟨Sz_k, Sz_k⟩`: the denominator of a projection on `Sz_k`.
pub open spec fn proj_den(seed: Seed, k: int) -> int {
    fro_spec(seed_sz(seed, k), seed_sz(seed, k), seed.dim_spec() as int)
}

/// The terms `f_{i,k} · Sz_k[p]` of the diagonal entry `p` of
/// `Σ_k f_{i,k} Sz_k`, with `f_{i,k} = proj_num / proj_den`.
pub open spec fn span_terms(seed: Seed, i: int, p: int) -> Seq<(int, int)> {
    Seq::new(seed.rank_spec(), |k: int| (proj_num(seed, i, k) * seed_sz(seed, k)[p], proj_den(seed, k)))
}

/// `[Sz_j, Sp_i]` on the records.
pub open spec fn root_comm(seed: Seed, i: int, j: int) -> Seq<Seq<int>> {
    let d = seed.dim_spec() as int;
    commutator_spec(diag_spec(seed_sz(seed, j), d), seed_sp(seed, i), d)
}

/// Cartan operator `i` has a non-zero diagonal entry.
pub open spec fn cartan_nonzero(seed: Seed, i: int) -> bool {
    exists|p: int| 0 <= p < seed.dim_spec() && #[trigger] seed_sz(seed, i)[p] != 0
}

/// Relation 1: every Cartan operator is non-zero, and they are mutually
/// Frobenius-orthogonal.
pub open spec fn cartan_ok(seed: Seed) -> bool {
    let (r, d) = (seed.rank_spec() as int, seed.dim_spec() as int);
    &&& forall|i: int| 0 <= i < r ==> #[trigger] cartan_nonzero(seed, i)
    &&& forall|i: int, j: int|
        0 <= i < j < r ==> #[trigger] fro_spec(seed_sz(seed, i), seed_sz(seed, j), d) == 0
}

/// Relation 2 for generator `i`: `[Sp_i, Sp_i^†]` is non-zero and equals
/// `Σ_k f_{i,k} Sz_k` with the projections `f_{i,k}`.
pub open spec fn ladder_ok(seed: Seed, i: int) -> bool {
    let d = seed.dim_spec() as int;
    &&& exists|row: int, col: int|
        0 <= row < d && 0 <= col < d && #[trigger] ladder_comm(seed, i)[row][col] != 0
    &&& forall|row: int, col: int|
        0 <= row < d && 0 <= col < d && row != col ==> #[trigger] ladder_comm(seed, i)[row][col] == 0
    &&& forall|p: int|
        0 <= p < d ==> frac_eq(
            #[trigger] ladder_comm(seed, i)[p][p],
            1,
            series_frac(span_terms(seed, i, p)).0,
            series_frac(span_terms(seed, i, p)).1,
        )
}

/// Relation 3 for generator `i` and Cartan operator `j`: `[Sz_j, Sp_i]` is a
/// multiple of `Sp_i`, the ratio read at the first record of `Sp_i`.
pub open spec fn root_ok(seed: Seed, i: int, j: int) -> bool {
    let d = seed.dim_spec() as int;
    let (r0, c0, v0) = seed.raising_spec()[i][0];
    forall|row: int, col: int|
        0 <= row < d && 0 <= col < d ==> #[trigger] root_comm(seed, i, j)[row][col] * v0 == root_comm(
            seed,
            i,
            j,
        )[r0 as int][c0 as int] * seed_sp(seed, i)[row][col]
}

/// All three QSpace commutator relations hold.
pub open spec fn seed_relations(seed: Seed) -> bool {
    let r = seed.rank_spec() as int;
    &&& cartan_ok(seed)
    &&& forall|i: int| 0 <= i < r ==> #[trigger] ladder_ok(seed, i)
    &&& forall|i: int, j: int| 0 <= i < r && 0 <= j < r ==> #[trigger] root_ok(seed, i, j)
}

/// The Cartan checks pass for the operators before `i`: each is non-zero and
/// orthogonal to every later one.
pub open spec fn cartan_rows_ok(seed: Seed, i: int) -> bool {
    let (r, d) = (seed.rank_spec() as int, seed.dim_spec() as int);
    &&& forall|a: int| 0 <= a < i ==> #[trigger] cartan_nonzero(seed, a)
    &&& forall|a: int, b: int|
        0 <= a < i && a < b < r ==> #[trigger] fro_spec(seed_sz(seed, a), seed_sz(seed, b), d) == 0
}

/// The name under which a failed ladder relation for generator `i` is
/// reported: a vanishing `[Sp_i, Sp_i^†]`, or one outside the Cartan span.
pub open spec fn ladder_failure_name(seed: Seed, i: int) -> &'static str {
    let d = seed.dim_spec() as int;
    if forall|row: int, col: int|
        0 <= row < d && 0 <= col < d ==> #[trigger] ladder_comm(seed, i)[row][col] == 0 {
        "[Sp,Sp^dagger] has norm 0"
    } else {
        "[Sp,Sp^dagger] not in span(Sz)"
    }
}

/// The relation that fails first, in the order the checks are made (Cartan
/// operators by index, each first non-zero and then orthogonal to the later
/// ones; ladder relations by generator; root relations by generator and
/// Cartan index), fails at generator indices `(i, j)` and is reported as
/// `relation`.
pub open spec fn first_failure(seed: Seed, i: int, j: int, relation: &'static str) -> bool {
    let (r, d) = (seed.rank_spec() as int, seed.dim_spec() as int);
    ||| {
        &&& 0 <= i < r
        &&& i == j
        &&& cartan_rows_ok(seed, i)
        &&& !cartan_nonzero(seed, i)
        &&& relation == "cartan is zero"
    }
    ||| {
        &&& 0 <= i < j < r
        &&& cartan_rows_ok(seed, i)
        &&& cartan_nonzero(seed, i)
        &&& forall|b: int| i < b < j ==> #[trigger] fro_spec(seed_sz(seed, i), seed_sz(seed, b), d) == 0
        &&& fro_spec(seed_sz(seed, i), seed_sz(seed, j), d) != 0
        &&& relation == "cartan not mutually orthogonal"
    }
    ||| {
        &&& 0 <= i < r
        &&& i == j
        &&& cartan_ok(seed)
        &&& forall|a: int| 0 <= a < i ==> #[trigger] ladder_ok(seed, a)
        &&& !ladder_ok(seed, i)
        &&& relation == ladder_failure_name(seed, i)
    }
    ||| {
        &&& 0 <= i < r
        &&& 0 <= j < r
        &&& cartan_ok(seed)
        &&& forall|a: int| 0 <= a < r ==> #[trigger] ladder_ok(seed, a)
        &&& forall|a: int, b: int| 0 <= a < i && 0 <= b < r ==> #[trigger] root_ok(seed, a, b)
        &&& forall|b: int| 0 <= b < j ==> #[trigger] root_ok(seed, i, b)
        &&& !root_ok(seed, i, j)
        &&& relation == "[Sz,Sp] not proportional to Sp"
    }
}

/// The entries of a seed are small enough for exact `i64` matrix arithmetic.
pub open spec fn seed_in_range(seed: Seed) -> bool {
    let (r, d) = (seed.rank_spec() as int, seed.dim_spec() as int);
    &&& d <= 1024
    &&& forall|k: int, p: int|
        0 <= k < r && 0 <= p < d ==> -1024 <= #[trigger] seed.cartan_spec()[k][p] <= 1024
    &&& forall|i: int, t: int|
        0 <= i < r && 0 <= t < seed.raising_spec()[i].len() ==> -1024 <= (
        #[trigger] seed.raising_spec()[i][t]).2 <= 1024
    &&& -4 <= ratio64_numer(seed.cartan_scale_spec()) <= 4
    &&& ratio64_denom(seed.cartan_scale_spec()) <= 4
    &&& forall|i: int|
        0 <= i < r ==> -4 <= ratio64_numer(#[trigger] seed.raising_scale2_spec()[i]) <= 4
            && ratio64_denom(seed.raising_scale2_spec()[i]) <= 4
}

/// The exact Cartan/root structure constants derived while checking a
/// [`Seed`], in the QSpace basis.
#[derive(Debug, PartialEq, Eq)]
pub struct CommReport {
    /// `cartan_coeffs[i][k] = f_{i,k}` with `[Sp_i, Sp_i^†] = Σ_k f_{i,k} Sz_k`.
    pub cartan_coeffs: Vec<Vec<Ratio<i64>>>,
    /// `root_weights[i][j] = d_{i,j}` with `[Sz_j, Sp_i] = d_{i,j} Sp_i`.
    pub root_weights: Vec<Vec<Ratio<i64>>>,
}

/// The report's constants are the scaled projections and root components.
pub open spec fn report_matches(rep: CommReport, seed: Seed) -> bool {
    let r = seed.rank_spec() as int;
    let (szn, szd) = (ratio64_numer(seed.cartan_scale_spec()), ratio64_denom(seed.cartan_scale_spec()));
    &&& rep.cartan_coeffs@.len() == r
    &&& rep.root_weights@.len() == r
    &&& forall|i: int| 0 <= i < r ==> (#[trigger] rep.cartan_coeffs@[i])@.len() == r
    &&& forall|i: int| 0 <= i < r ==> (#[trigger] rep.root_weights@[i])@.len() == r
    &&& forall|i: int, k: int|
        0 <= i < r && 0 <= k < r ==> {
            let q = #[trigger] rep.cartan_coeffs@[i]@[k];
            let s2 = seed.raising_scale2_spec()[i];
            &&& ratio64_denom(q) > 0
            &&& frac_eq(
                ratio64_numer(q),
                ratio64_denom(q),
                proj_num(seed, i, k) * ratio64_numer(s2) * szd,
                proj_den(seed, k) * ratio64_denom(s2) * szn,
            )
        }
    &&& forall|i: int, j: int|
        0 <= i < r && 0 <= j < r ==> {
            let q = #[trigger] rep.root_weights@[i]@[j];
            let (r0, c0, v0) = seed.raising_spec()[i][0];
            &&& ratio64_denom(q) > 0
            &&& frac_eq(
                ratio64_numer(q),
                ratio64_denom(q),
                root_comm(seed, i, j)[r0 as int][c0 as int] * szn,
                v0 * szd,
            )
        }
}


/// The first non-zero entry of a vector, if any.
fn first_nonzero(v: &Vec<i64>) -> (p: Option<usize>)
    ensures
        p matches Some(q) ==> q < v@.len() && v@[q as int] != 0,
        p is None ==> forall|q: int| 0 <= q < v@.len() ==> v@[q] == 0,
{
    let mut q: usize = 0;
    while q < v.len()
        invariant
            q <= v@.len(),
            forall|t: int| 0 <= t < q ==> v@[t] == 0,
        decreases v@.len() - q,
    {
        if v[q] != 0 {
            return Some(q);
        }
        q = q + 1;
    }
    None
}

/// The first non-zero entry of a `d × d` matrix, if any.
fn matrix_first_nonzero(m: &Vec<Vec<i64>>, d: usize) -> (p: Option<(usize, usize)>)
    requires
        is_matrix(m@, d as int),
    ensures
        p matches Some(rc) ==> rc.0 < d && rc.1 < d && mat_int(m@)[rc.0 as int][rc.1 as int] != 0,
        p is None ==> forall|row: int, col: int|
            0 <= row < d && 0 <= col < d ==> #[trigger] mat_int(m@)[row][col] == 0,
{
    let mut row: usize = 0;
    while row < d
        invariant
            is_matrix(m@, d as int),
            row <= d,
            forall|r: int, c: int| 0 <= r < row && 0 <= c < d ==> #[trigger] mat_int(m@)[r][c] == 0,
        decreases d - row,
    {
        match first_nonzero(&m[row]) {
            Some(col) => {
                return Some((row, col));
            },
            None => {},
        }
        row = row + 1;
    }
    None
}

/// `⟨z, z⟩ ≥ 0`, and `> 0` when `z` has a non-zero entry.
proof fn lemma_fro_self(z: Seq<int>, n: int, p: int)
    requires
        0 <= n <= z.len(),
    ensures
        fro_spec(z, z, n) >= 0,
        0 <= p < n && z[p] != 0 ==> fro_spec(z, z, n) > 0,
    decreases n,
{
    if n > 0 {
        lemma_fro_self(z, n - 1, p);
        let x = z[n - 1];
        assert(x * x >= 0) by (nonlinear_arith);
        if p == n - 1 && x != 0 {
            assert(x * x > 0) by (nonlinear_arith)
                requires
                    x != 0,
            ;
        }
    }
}

/// The Cartan diagonals are bounded by `2^10`.
proof fn lemma_cartan_bounds(seed: Seed, k: int)
    requires
        seed.wf(),
        seed_in_range(seed),
        0 <= k < seed.rank_spec(),
    ensures
        seed.sz@[k]@.len() == seed.dim_spec(),
        seed.cartan_spec()[k] == seed.sz@[k]@,
        forall|p: int| 0 <= p < seed.dim_spec() ==> -1024 <= #[trigger] seed.sz@[k]@[p] <= 1024,
{
    assert(seed.cartan_spec()[k] == seed.sz@[k]@);
    assert forall|p: int| 0 <= p < seed.dim_spec() implies -1024 <= #[trigger] seed.sz@[k]@[p] <= 1024 by {
        assert(seed.cartan_spec()[k][p] == seed.sz@[k]@[p]);
    }
}

/// Relation 1: the Cartan operators are non-zero and mutually orthogonal.
fn cartan_check(seed: &Seed) -> (res: Result<(), BcdError>)
    requires
        seed.wf(),
        seed_in_range(*seed),
    ensures
        res is Ok <==> cartan_ok(*seed),
        res matches Err(e) ==> (e matches BcdError::CommutatorViolation { series, relation, i, j }
            && series == seed.series_spec() && first_failure(*seed, i as int, j as int, relation)),
{
    let r = seed.rank;
    let d = seed.dim;
    let mut i: usize = 0;
    while i < r
        invariant
            seed.wf(),
            seed_in_range(*seed),
            r == seed.rank_spec(),
            d == seed.dim_spec(),
            i <= r,
            forall|a: int| 0 <= a < i ==> #[trigger] cartan_nonzero(*seed, a),
            forall|a: int, b: int|
                0 <= a < i && a < b < r ==> #[trigger] fro_spec(
                    seed_sz(*seed, a),
                    seed_sz(*seed, b),
                    d as int,
                ) == 0,
        decreases r - i,
    {
        proof {
            lemma_cartan_bounds(*seed, i as int);
        }
        assert(cartan_rows_ok(*seed, i as int));
        match first_nonzero(&seed.sz[i]) {
            None => {
                proof {
                    assert(!cartan_nonzero(*seed, i as int));
                }
                return Err(
                    BcdError::CommutatorViolation {
                        series: seed.series,
                        relation: "cartan is zero",
                        i,
                        j: i,
                    },
                );
            },
            Some(p) => {
                assert(seed_sz(*seed, i as int)[p as int] != 0);
            },
        }
        let mut j: usize = i + 1;
        while j < r
            invariant
                seed.wf(),
                seed_in_range(*seed),
                r == seed.rank_spec(),
                d == seed.dim_spec(),
                i < j <= r,
                seed.sz@[i as int]@.len() == d,
                forall|p: int| 0 <= p < d ==> -1024 <= #[trigger] seed.sz@[i as int]@[p] <= 1024,
                cartan_rows_ok(*seed, i as int),
                cartan_nonzero(*seed, i as int),
                forall|b: int|
                    i < b < j ==> #[trigger] fro_spec(
                        seed_sz(*seed, i as int),
                        seed_sz(*seed, b),
                        d as int,
                    ) == 0,
            decreases r - j,
        {
            proof {
                lemma_cartan_bounds(*seed, j as int);
            }
            let f = fro_diag(&seed.sz[i], &seed.sz[j]);
            assert(f == fro_spec(seed_sz(*seed, i as int), seed_sz(*seed, j as int), d as int));
            if f != 0 {
                return Err(
                    BcdError::CommutatorViolation {
                        series: seed.series,
                        relation: "cartan not mutually orthogonal",
                        i,
                        j,
                    },
                );
            }
            j = j + 1;
        }
        i = i + 1;
    }
    Ok(())
}


/// Whether `c = Σ_k (pn[k] · Sz_k[p]) / qd[k]`, decided exactly by
/// accumulating the fraction over big integers.
fn span_matches(seed: &Seed, pn: &Vec<i64>, qd: &Vec<i64>, p: usize, c: i64, Ghost(i): Ghost<int>) -> (b:
    bool)
    requires
        seed.wf(),
        seed_in_range(*seed),
        0 <= i < seed.rank_spec(),
        p < seed.dim_spec(),
        pn@.len() == seed.rank_spec(),
        qd@.len() == seed.rank_spec(),
        forall|k: int| 0 <= k < seed.rank_spec() ==> #[trigger] pn@[k] == proj_num(*seed, i, k),
        forall|k: int| 0 <= k < seed.rank_spec() ==> #[trigger] qd@[k] == proj_den(*seed, k),
        forall|k: int|
            0 <= k < seed.rank_spec() ==> -2251799813685248 <= #[trigger] pn@[k] <= 2251799813685248,
    ensures
        b == frac_eq(c as int, 1, series_frac(span_terms(*seed, i, p as int)).0, series_frac(
            span_terms(*seed, i, p as int),
        ).1),
{
    let r = seed.rank;
    let ghost t = span_terms(*seed, i, p as int);
    let mut num = big_from_i64(0);
    let mut den = big_from_i64(1);
    let mut k: usize = 0;
    while k < r
        invariant
            seed.wf(),
            seed_in_range(*seed),
            r == seed.rank_spec(),
            p < seed.dim_spec(),
            t == span_terms(*seed, i, p as int),
            pn@.len() == r,
            qd@.len() == r,
            forall|q: int| 0 <= q < r ==> #[trigger] pn@[q] == proj_num(*seed, i, q),
            forall|q: int| 0 <= q < r ==> #[trigger] qd@[q] == proj_den(*seed, q),
            forall|q: int| 0 <= q < r ==> -2251799813685248 <= #[trigger] pn@[q] <= 2251799813685248,
            k <= r,
            bigint_value(num) == series_upto(t, k as nat).0,
            bigint_value(den) == series_upto(t, k as nat).1,
        decreases r - k,
    {
        proof {
            lemma_cartan_bounds(*seed, k as int);
        }
        let z = seed.sz[k][p];
        let x = pn[k];
        assert(-2305843009213693952 <= x * z <= 2305843009213693952) by (nonlinear_arith)
            requires
                -2251799813685248 <= x <= 2251799813685248,
                -1024 <= z <= 1024,
        ;
        let a = big_from_i64(x * z);
        let q = big_from_i64(qd[k]);
        proof {
            assert(seed.cartan_spec()[k as int][p as int] == z);
            assert(t[k as int] == (x * z, qd@[k as int] as int));
        }
        let n1 = big_mul(&num, &q);
        let n2 = big_mul(&a, &den);
        num = big_add(&n1, &n2);
        den = big_mul(&den, &q);
        k = k + 1;
    }
    let lhs = big_mul(&big_from_i64(c), &den);
    assert(t.len() == r);
    big_eq(&lhs, &num)
}

/// Relation 2 for generator `i`: `[Sp_i, Sp_i^†]` is non-zero and lies in
/// the span of the Cartan operators; on success, the scaled projections
/// `f_{i,k}`.
#[verifier::rlimit(40)]
fn ladder_check(seed: &Seed, i: usize, spi: &Vec<Vec<i64>>) -> (res: Result<Vec<Ratio<i64>>, BcdError>)
    requires
        seed.wf(),
        seed_in_range(*seed),
        cartan_ok(*seed),
        i < seed.rank_spec(),
        is_matrix(spi@, seed.dim_spec() as int),
        mat_int(spi@) == seed_sp(*seed, i as int),
        mat_bounded(mat_int(spi@), seed.dim_spec() as int, 1024),
    ensures
        res is Ok <==> ladder_ok(*seed, i as int),
        res matches Ok(row) ==> {
            &&& row@.len() == seed.rank_spec()
            &&& forall|k: int|
                0 <= k < seed.rank_spec() ==> {
                    let q = #[trigger] row@[k];
                    let s2 = seed.raising_scale2_spec()[i as int];
                    &&& ratio64_denom(q) > 0
                    &&& frac_eq(
                        ratio64_numer(q),
                        ratio64_denom(q),
                        proj_num(*seed, i as int, k) * ratio64_numer(s2) * ratio64_denom(
                            seed.cartan_scale_spec(),
                        ),
                        proj_den(*seed, k) * ratio64_denom(s2) * ratio64_numer(seed.cartan_scale_spec()),
                    )
                }
        },
        res matches Err(e) ==> (e matches BcdError::CommutatorViolation { series, relation, i: a, j: b }
            && series == seed.series_spec() && a == i && b == i && relation == ladder_failure_name(
            *seed,
            i as int,
        )),
{
    let d = seed.dim;
    let r = seed.rank;
    let ghost lc = ladder_comm(*seed, i as int);
    let spt = transpose(spi, d);
    proof {
        assert(mat_bounded(mat_int(spt@), d as int, 1024)) by {
            assert forall|row: int, col: int| 0 <= row < d && 0 <= col < d implies -1024
                <= #[trigger] mat_int(spt@)[row][col] <= 1024 by {
                assert(mat_int(spt@)[row][col] == mat_int(spi@)[col][row]);
            }
        }
    }
    let c = commutator(spi, &spt, d);
    assert(mat_int(c@) == lc);
    let nz = matrix_first_nonzero(&c, d);
    if nz.is_none() {
        return Err(
            BcdError::CommutatorViolation {
                series: seed.series,
                relation: "[Sp,Sp^dagger] has norm 0",
                i,
                j: i,
            },
        );
    }
    let ghost (wr, wc) = nz.unwrap();
    assert(lc[wr as int][wc as int] != 0);
    assert(ladder_comm(*seed, i as int)[wr as int][wc as int] != 0);
    let mut cd: Vec<i64> = Vec::new();
    let mut p: usize = 0;
    while p < d
        invariant
            wr < d && wc < d && ladder_comm(*seed, i as int)[wr as int][wc as int] != 0,
            is_matrix(c@, d as int),
            mat_int(c@) == lc,
            mat_bounded(lc, d as int, 2147483648),
            p <= d,
            cd@.len() == p,
            forall|q: int| 0 <= q < p ==> #[trigger] cd@[q] == lc[q][q],
        decreases d - p,
    {
        assert(lc[p as int][p as int] == c@[p as int]@[p as int]);
        cd.push(c[p][p]);
        p = p + 1;
    }
    assert(ints(cd@) =~= Seq::new(d as nat, |q: int| lc[q][q]));
    let mut pn: Vec<i64> = Vec::new();
    let mut qd: Vec<i64> = Vec::new();
    let mut k: usize = 0;
    while k < r
        invariant
            wr < d && wc < d && ladder_comm(*seed, i as int)[wr as int][wc as int] != 0,
            seed.wf(),
            seed_in_range(*seed),
            cartan_ok(*seed),
            r == seed.rank_spec(),
            d == seed.dim_spec(),
            i < r,
            lc == ladder_comm(*seed, i as int),
            mat_bounded(lc, d as int, 2147483648),
            cd@.len() == d,
            ints(cd@) == Seq::new(d as nat, |q: int| lc[q][q]),
            forall|q: int| 0 <= q < d ==> #[trigger] cd@[q] == lc[q][q],
            k <= r,
            pn@.len() == k,
            qd@.len() == k,
            forall|q: int| 0 <= q < k ==> #[trigger] pn@[q] == proj_num(*seed, i as int, q),
            forall|q: int| 0 <= q < k ==> #[trigger] qd@[q] == proj_den(*seed, q),
            forall|q: int| 0 <= q < k ==> -2251799813685248 <= #[trigger] pn@[q] <= 2251799813685248,
            forall|q: int| 0 <= q < k ==> 0 < #[trigger] qd@[q] <= 2251799813685248,
        decreases r - k,
    {
        proof {
            lemma_cartan_bounds(*seed, k as int);
            assert(cartan_nonzero(*seed, k as int));
            let w = choose|w: int| 0 <= w < d && #[trigger] seed_sz(*seed, k as int)[w] != 0;
            lemma_fro_self(seed_sz(*seed, k as int), d as int, w);
            assert forall|q: int| 0 <= q < d implies -2147483648 <= #[trigger] cd@[q] <= 2147483648 by {
                assert(cd@[q] == lc[q][q]);
            }
        }
        let a = fro_diag(&cd, &seed.sz[k]);
        let b = fro_diag(&seed.sz[k], &seed.sz[k]);
        pn.push(a);
        qd.push(b);
        k = k + 1;
    }
    let mut row: usize = 0;
    while row < d
        invariant
            wr < d && wc < d && ladder_comm(*seed, i as int)[wr as int][wc as int] != 0,
            seed.wf(),
            seed_in_range(*seed),
            r == seed.rank_spec(),
            d == seed.dim_spec(),
            i < r,
            is_matrix(c@, d as int),
            mat_int(c@) == lc,
            lc == ladder_comm(*seed, i as int),
            pn@.len() == r,
            qd@.len() == r,
            forall|q: int| 0 <= q < r ==> #[trigger] pn@[q] == proj_num(*seed, i as int, q),
            forall|q: int| 0 <= q < r ==> #[trigger] qd@[q] == proj_den(*seed, q),
            forall|q: int| 0 <= q < r ==> -2251799813685248 <= #[trigger] pn@[q] <= 2251799813685248,
            row <= d,
            forall|a: int, b: int|
                0 <= a < row && 0 <= b < d && a != b ==> #[trigger] lc[a][b] == 0,
            forall|a: int|
                0 <= a < row ==> frac_eq(
                    #[trigger] lc[a][a],
                    1,
                    series_frac(span_terms(*seed, i as int, a)).0,
                    series_frac(span_terms(*seed, i as int, a)).1,
                ),
        decreases d - row,
    {
        let mut col: usize = 0;
        while col < d
            invariant
                wr < d && wc < d && ladder_comm(*seed, i as int)[wr as int][wc as int] != 0,
                seed.wf(),
                seed_in_range(*seed),
                r == seed.rank_spec(),
                d == seed.dim_spec(),
                i < r,
                is_matrix(c@, d as int),
                mat_int(c@) == lc,
                lc == ladder_comm(*seed, i as int),
                pn@.len() == r,
                qd@.len() == r,
                forall|q: int| 0 <= q < r ==> #[trigger] pn@[q] == proj_num(*seed, i as int, q),
                forall|q: int| 0 <= q < r ==> #[trigger] qd@[q] == proj_den(*seed, q),
                forall|q: int| 0 <= q < r ==> -2251799813685248 <= #[trigger] pn@[q] <= 2251799813685248,
                row < d,
                col <= d,
                forall|b: int| 0 <= b < col && row != b ==> #[trigger] lc[row as int][b] == 0,
                col > row ==> frac_eq(
                    lc[row as int][row as int],
                    1,
                    series_frac(span_terms(*seed, i as int, row as int)).0,
                    series_frac(span_terms(*seed, i as int, row as int)).1,
                ),
            decreases d - col,
        {
            let v = c[row][col];
            assert(v == lc[row as int][col as int]);
            if row != col {
                if v != 0 {
                    assert(ladder_comm(*seed, i as int)[wr as int][wc as int] != 0);
                    return Err(
                        BcdError::CommutatorViolation {
                            series: seed.series,
                            relation: "[Sp,Sp^dagger] not in span(Sz)",
                            i,
                            j: i,
                        },
                    );
                }
            } else {
                if !span_matches(seed, &pn, &qd, row, v, Ghost(i as int)) {
                    assert(ladder_comm(*seed, i as int)[wr as int][wc as int] != 0);
                    return Err(
                        BcdError::CommutatorViolation {
                            series: seed.series,
                            relation: "[Sp,Sp^dagger] not in span(Sz)",
                            i,
                            j: i,
                        },
                    );
                }
            }
            col = col + 1;
        }
        row = row + 1;
    }
    let (s2n, s2d) = ratio64_parts(&seed.sp_scale2[i]);
    let (szn, szd) = ratio64_parts(&seed.sz_scale);
    proof {
        assert(seed.raising_scale2_spec()[i as int] == seed.sp_scale2@[i as int]);
        let q = seed.raising_scale2_spec()[i as int];
        assert(-4 <= ratio64_numer(q) <= 4 && ratio64_denom(q) <= 4);
        assert(ratio64_denom(seed.sp_scale2@[i as int]) > 0);
    }
    let mut coeffs: Vec<Ratio<i64>> = Vec::new();
    let mut k: usize = 0;
    while k < r
        invariant
            wr < d && wc < d && ladder_comm(*seed, i as int)[wr as int][wc as int] != 0,
            i < r,
            r == seed.rank_spec(),
            pn@.len() == r,
            qd@.len() == r,
            forall|q: int| 0 <= q < r ==> #[trigger] pn@[q] == proj_num(*seed, i as int, q),
            forall|q: int| 0 <= q < r ==> #[trigger] qd@[q] == proj_den(*seed, q),
            forall|q: int| 0 <= q < r ==> -2251799813685248 <= #[trigger] pn@[q] <= 2251799813685248,
            forall|q: int| 0 <= q < r ==> 0 < #[trigger] qd@[q] <= 2251799813685248,
            -4 <= s2n <= 4,
            0 < s2d <= 4,
            -4 <= szn <= 4,
            szn != 0,
            0 < szd <= 4,
            s2n == ratio64_numer(seed.raising_scale2_spec()[i as int]),
            s2d == ratio64_denom(seed.raising_scale2_spec()[i as int]),
            szn == ratio64_numer(seed.cartan_scale_spec()),
            szd == ratio64_denom(seed.cartan_scale_spec()),
            k <= r,
            coeffs@.len() == k,
            forall|q: int|
                0 <= q < k ==> {
                    let x = #[trigger] coeffs@[q];
                    &&& ratio64_denom(x) > 0
                    &&& frac_eq(
                        ratio64_numer(x),
                        ratio64_denom(x),
                        proj_num(*seed, i as int, q) * s2n * szd,
                        proj_den(*seed, q) * s2d * szn,
                    )
                },
        decreases r - k,
    {
        let (a, b) = (pn[k], qd[k]);
        assert(-9007199254740992 <= a * s2n <= 9007199254740992) by (nonlinear_arith)
            requires
                -2251799813685248 <= a <= 2251799813685248,
                -4 <= s2n <= 4,
        ;
        assert(0 < b * s2d <= 9007199254740992) by (nonlinear_arith)
            requires
                0 < b <= 2251799813685248,
                0 < s2d <= 4,
        ;
        assert(-36028797018963968 <= a * s2n * szd <= 36028797018963968) by (nonlinear_arith)
            requires
                -2251799813685248 <= a <= 2251799813685248,
                -4 <= s2n <= 4,
                0 < szd <= 4,
        ;
        assert(-36028797018963968 <= b * s2d * szn <= 36028797018963968 && b * s2d * szn != 0)
            by (nonlinear_arith)
            requires
                0 < b <= 2251799813685248,
                0 < s2d <= 4,
                -4 <= szn <= 4,
                szn != 0,
        ;
        coeffs.push(ratio64_new(a * s2n * szd, b * s2d * szn));
        k = k + 1;
    }
    Ok(coeffs)
}


/// Relation 3 for generator `i` and Cartan operator `j`: `[Sz_j, Sp_i]` is a
/// multiple of `Sp_i`; on success, the scaled root component `d_{i,j}`.
#[verifier::rlimit(40)]
fn root_check(seed: &Seed, i: usize, j: usize, spi: &Vec<Vec<i64>>) -> (res: Result<Ratio<i64>, BcdError>)
    requires
        seed.wf(),
        seed_in_range(*seed),
        i < seed.rank_spec(),
        j < seed.rank_spec(),
        is_matrix(spi@, seed.dim_spec() as int),
        mat_int(spi@) == seed_sp(*seed, i as int),
        mat_bounded(mat_int(spi@), seed.dim_spec() as int, 1024),
    ensures
        res is Ok <==> root_ok(*seed, i as int, j as int),
        res matches Ok(q) ==> {
            let (r0, c0, v0) = seed.raising_spec()[i as int][0];
            &&& ratio64_denom(q) > 0
            &&& frac_eq(
                ratio64_numer(q),
                ratio64_denom(q),
                root_comm(*seed, i as int, j as int)[r0 as int][c0 as int] * ratio64_numer(
                    seed.cartan_scale_spec(),
                ),
                v0 * ratio64_denom(seed.cartan_scale_spec()),
            )
        },
        res matches Err(e) ==> (e matches BcdError::CommutatorViolation { series, relation, i: a, j: b }
            && series == seed.series_spec() && a == i && b == j && relation
            == "[Sz,Sp] not proportional to Sp"),
{
    let d = seed.dim;
    proof {
        lemma_cartan_bounds(*seed, j as int);
    }
    let szj = diag(&seed.sz[j], d);
    proof {
        assert(mat_bounded(mat_int(szj@), d as int, 1024)) by {
            assert forall|row: int, col: int| 0 <= row < d && 0 <= col < d implies -1024
                <= #[trigger] mat_int(szj@)[row][col] <= 1024 by {
                assert(mat_int(szj@)[row][col] == diag_spec(ints(seed.sz@[j as int]@), d as int)[row][col]);
            }
        }
        assert(ints(seed.sz@[j as int]@) == seed_sz(*seed, j as int));
    }
    let bc = commutator(&szj, spi, d);
    let ghost rc = root_comm(*seed, i as int, j as int);
    assert(mat_int(bc@) == rc);
    proof {
        assert(seed.raising_spec()[i as int] == seed.sp@[i as int]@);
        assert(records_ok(seed.sp@[i as int]@, d as int));
    }
    let (r0, c0, v0) = seed.sp[i][0];
    proof {
        assert(seed.raising_spec()[i as int][0] == (r0, c0, v0));
        assert(-1024 <= v0 <= 1024);
    }
    let b0 = bc[r0][c0];
    assert(b0 == rc[r0 as int][c0 as int]);
    let mut row: usize = 0;
    while row < d
        invariant
            is_matrix(bc@, d as int),
            is_matrix(spi@, d as int),
            mat_int(bc@) == rc,
            mat_bounded(rc, d as int, 2147483648),
            mat_bounded(mat_int(spi@), d as int, 1024),
            rc == root_comm(*seed, i as int, j as int),
            mat_int(spi@) == seed_sp(*seed, i as int),
            seed.raising_spec()[i as int][0] == (r0, c0, v0),
            -1024 <= v0 <= 1024,
            b0 == rc[r0 as int][c0 as int],
            -2147483648 <= b0 <= 2147483648,
            d == seed.dim_spec(),
            i < seed.rank_spec(),
            j < seed.rank_spec(),
            row <= d,
            forall|a: int, b: int|
                0 <= a < row && 0 <= b < d ==> #[trigger] rc[a][b] * v0 == b0 * mat_int(spi@)[a][b],
        decreases d - row,
    {
        let mut col: usize = 0;
        while col < d
            invariant
                is_matrix(bc@, d as int),
                is_matrix(spi@, d as int),
                mat_int(bc@) == rc,
                mat_bounded(rc, d as int, 2147483648),
                mat_bounded(mat_int(spi@), d as int, 1024),
                rc == root_comm(*seed, i as int, j as int),
                mat_int(spi@) == seed_sp(*seed, i as int),
                seed.raising_spec()[i as int][0] == (r0, c0, v0),
                -1024 <= v0 <= 1024,
                b0 == rc[r0 as int][c0 as int],
                -2147483648 <= b0 <= 2147483648,
                d == seed.dim_spec(),
                i < seed.rank_spec(),
                j < seed.rank_spec(),
                row < d,
                col <= d,
                forall|b: int| 0 <= b < col ==> #[trigger] rc[row as int][b] * v0 == b0 * mat_int(spi@)[row as int][b],
            decreases d - col,
        {
            let x = bc[row][col];
            let y = spi[row][col];
            assert(x == rc[row as int][col as int]);
            assert(y == mat_int(spi@)[row as int][col as int]);
            assert(-2199023255552 <= x * v0 <= 2199023255552) by (nonlinear_arith)
                requires
                    -2147483648 <= x <= 2147483648,
                    -1024 <= v0 <= 1024,
            ;
            assert(-2199023255552 <= b0 * y <= 2199023255552) by (nonlinear_arith)
                requires
                    -2147483648 <= b0 <= 2147483648,
                    -1024 <= y <= 1024,
            ;
            if x * v0 != b0 * y {
                return Err(
                    BcdError::CommutatorViolation {
                        series: seed.series,
                        relation: "[Sz,Sp] not proportional to Sp",
                        i,
                        j,
                    },
                );
            }
            col = col + 1;
        }
        row = row + 1;
    }
    let (szn, szd) = ratio64_parts(&seed.sz_scale);
    assert(-8589934592 <= b0 * szn <= 8589934592) by (nonlinear_arith)
        requires
            -2147483648 <= b0 <= 2147483648,
            -4 <= szn <= 4,
    ;
    assert(v0 * szd != 0 && -4096 <= v0 * szd <= 4096) by (nonlinear_arith)
        requires
            -1024 <= v0 <= 1024,
            v0 != 0,
            0 < szd <= 4,
    ;
    Ok(ratio64_new(b0 * szn, v0 * szd))
}

/// Whether a seed's entries are small enough for the exact `i64` matrix
/// arithmetic of [`check_commutators`] ([`seed_in_range`]).
fn seed_in_range_check(seed: &Seed) -> (b: bool)
    ensures
        b == seed_in_range(*seed),
{
    proof {
        use_type_invariant(seed);
    }
    let r = seed.rank;
    let d = seed.dim;
    if d > 1024 {
        return false;
    }
    let mut k: usize = 0;
    while k < r
        invariant
            seed.wf(),
            r == seed.rank_spec(),
            d == seed.dim_spec(),
            d <= 1024,
            k <= r,
            forall|a: int, p: int|
                0 <= a < k && 0 <= p < d ==> -1024 <= #[trigger] seed.cartan_spec()[a][p] <= 1024,
        decreases r - k,
    {
        let mut p: usize = 0;
        while p < d
            invariant
                seed.wf(),
                r == seed.rank_spec(),
                d == seed.dim_spec(),
                k < r,
                p <= d,
                forall|a: int, q: int|
                    0 <= a < k && 0 <= q < d ==> -1024 <= #[trigger] seed.cartan_spec()[a][q] <= 1024,
                forall|q: int| 0 <= q < p ==> -1024 <= #[trigger] seed.cartan_spec()[k as int][q] <= 1024,
            decreases d - p,
        {
            assert(seed.cartan_spec()[k as int] == seed.sz@[k as int]@);
            let x = seed.sz[k][p];
            if x < -1024 || x > 1024 {
                return false;
            }
            p = p + 1;
        }
        k = k + 1;
    }
    let mut i: usize = 0;
    while i < r
        invariant
            seed.wf(),
            r == seed.rank_spec(),
            d == seed.dim_spec(),
            d <= 1024,
            forall|a: int, p: int|
                0 <= a < r && 0 <= p < d ==> -1024 <= #[trigger] seed.cartan_spec()[a][p] <= 1024,
            i <= r,
            forall|a: int, t: int|
                0 <= a < i && 0 <= t < seed.raising_spec()[a].len() ==> -1024 <= (
                #[trigger] seed.raising_spec()[a][t]).2 <= 1024,
        decreases r - i,
    {
        assert(seed.raising_spec()[i as int] == seed.sp@[i as int]@);
        let n = seed.sp[i].len();
        let mut t: usize = 0;
        while t < n
            invariant
                seed.wf(),
                r == seed.rank_spec(),
                i < r,
                d == seed.dim_spec(),
                d <= 1024,
                forall|a: int, p: int|
                    0 <= a < r && 0 <= p < d ==> -1024 <= #[trigger] seed.cartan_spec()[a][p] <= 1024,
                n == seed.raising_spec()[i as int].len(),
                seed.raising_spec()[i as int] == seed.sp@[i as int]@,
                t <= n,
                forall|a: int, u: int|
                    0 <= a < i && 0 <= u < seed.raising_spec()[a].len() ==> -1024 <= (
                    #[trigger] seed.raising_spec()[a][u]).2 <= 1024,
                forall|u: int| 0 <= u < t ==> -1024 <= (#[trigger] seed.raising_spec()[i as int][u]).2 <= 1024,
            decreases n - t,
        {
            let v = seed.sp[i][t].2;
            if v < -1024 || v > 1024 {
                return false;
            }
            t = t + 1;
        }
        i = i + 1;
    }
    let (szn, szd) = ratio64_parts(&seed.sz_scale);
    if szn < -4 || szn > 4 || szd > 4 {
        return false;
    }
    let mut i: usize = 0;
    while i < r
        invariant
            seed.wf(),
            r == seed.rank_spec(),
            d == seed.dim_spec(),
            d <= 1024,
            forall|a: int, p: int|
                0 <= a < r && 0 <= p < d ==> -1024 <= #[trigger] seed.cartan_spec()[a][p] <= 1024,
            forall|a: int, t: int|
                0 <= a < r && 0 <= t < seed.raising_spec()[a].len() ==> -1024 <= (
                #[trigger] seed.raising_spec()[a][t]).2 <= 1024,
            -4 <= ratio64_numer(seed.cartan_scale_spec()) <= 4,
            ratio64_denom(seed.cartan_scale_spec()) <= 4,
            i <= r,
            forall|a: int|
                0 <= a < i ==> -4 <= ratio64_numer(#[trigger] seed.raising_scale2_spec()[a]) <= 4
                    && ratio64_denom(seed.raising_scale2_spec()[a]) <= 4,
        decreases r - i,
    {
        assert(seed.raising_scale2_spec()[i as int] == seed.sp_scale2@[i as int]);
        let (n, dn) = ratio64_parts(&seed.sp_scale2[i]);
        if n < -4 || n > 4 || dn > 4 {
            return false;
        }
        i = i + 1;
    }
    true
}

/// Verify, exactly, the three QSpace commutator relations a [`Seed`] must
/// satisfy, returning the derived Cartan/root structure constants or the
/// first violated relation as [`BcdError::CommutatorViolation`]:
///
/// 1. every Cartan operator is non-zero and they are mutually
///    Frobenius-orthogonal;
/// 2. `[Sp_i, Sp_i^†] ≠ 0` equals `Σ_k f_{i,k} Sz_k` with the Frobenius
///    projections `f_{i,k}`;
/// 3. `[Sz_j, Sp_i] = d_{i,j} Sp_i`.
///
/// Every comparison is exact: matrix products in `i64`, the span test over
/// big integers. A seed whose carrier exceeds dimension `1024`, or whose
/// entries exceed `1024` or whose scales exceed `4` in size ([`seed_in_range`]),
/// is answered with [`BcdError::ArithmeticOverflow`] rather than checked.
pub fn check_commutators(seed: &Seed) -> (res: Result<CommReport, BcdError>)
    ensures
        !seed_in_range(*seed) ==> res == Err::<CommReport, BcdError>(BcdError::ArithmeticOverflow),
        seed_in_range(*seed) ==> (res is Ok <==> seed_relations(*seed)),
        res matches Ok(rep) ==> report_matches(rep, *seed),
        seed_in_range(*seed) && res is Err ==> (res->Err_0 matches BcdError::CommutatorViolation {
            series,
            relation,
            i,
            j,
        } && series == seed.series_spec() && first_failure(*seed, i as int, j as int, relation)),
{
    if !seed_in_range_check(seed) {
        return Err(BcdError::ArithmeticOverflow);
    }
    check_commutators_in_range(seed)
}

/// [`check_commutators`] on a seed in range.
fn check_commutators_in_range(seed: &Seed) -> (res: Result<CommReport, BcdError>)
    requires
        seed_in_range(*seed),
    ensures
        res is Ok <==> seed_relations(*seed),
        res matches Ok(rep) ==> report_matches(rep, *seed),
        res matches Err(e) ==> (e matches BcdError::CommutatorViolation { series, relation, i, j }
            && series == seed.series_spec() && first_failure(*seed, i as int, j as int, relation)),
{
    proof {
        use_type_invariant(seed);
    }
    let d = seed.dim;
    let r = seed.rank;
    let mut sp_dense: Vec<Vec<Vec<i64>>> = Vec::new();
    let mut i: usize = 0;
    while i < r
        invariant
            seed.wf(),
            seed_in_range(*seed),
            r == seed.rank_spec(),
            d == seed.dim_spec(),
            i <= r,
            sp_dense@.len() == i,
            forall|a: int| 0 <= a < i ==> is_matrix((#[trigger] sp_dense@[a])@, d as int),
            forall|a: int| 0 <= a < i ==> mat_int((#[trigger] sp_dense@[a])@) == seed_sp(*seed, a),
            forall|a: int| 0 <= a < i ==> mat_bounded(mat_int((#[trigger] sp_dense@[a])@), d as int, 1024),
        decreases r - i,
    {
        proof {
            assert(seed.raising_spec()[i as int] == seed.sp@[i as int]@);
            assert(records_ok(seed.sp@[i as int]@, d as int));
        }
        let m = dense(&seed.sp[i], d);
        proof {
            lemma_dense_bounded(seed.sp@[i as int]@, d as int);
        }
        sp_dense.push(m);
        i = i + 1;
    }
    match cartan_check(seed) {
        Err(e) => {
            return Err(e);
        },
        Ok(()) => {},
    }
    let mut cartan_coeffs: Vec<Vec<Ratio<i64>>> = Vec::new();
    let mut i: usize = 0;
    while i < r
        invariant
            seed.wf(),
            seed_in_range(*seed),
            cartan_ok(*seed),
            r == seed.rank_spec(),
            d == seed.dim_spec(),
            i <= r,
            sp_dense@.len() == r,
            forall|a: int| 0 <= a < r ==> is_matrix((#[trigger] sp_dense@[a])@, d as int),
            forall|a: int| 0 <= a < r ==> mat_int((#[trigger] sp_dense@[a])@) == seed_sp(*seed, a),
            forall|a: int| 0 <= a < r ==> mat_bounded(mat_int((#[trigger] sp_dense@[a])@), d as int, 1024),
            cartan_coeffs@.len() == i,
            forall|a: int| 0 <= a < i ==> #[trigger] ladder_ok(*seed, a),
            forall|a: int| 0 <= a < i ==> (#[trigger] cartan_coeffs@[a])@.len() == r,
            forall|a: int, k: int|
                0 <= a < i && 0 <= k < r ==> {
                    let q = #[trigger] cartan_coeffs@[a]@[k];
                    let s2 = seed.raising_scale2_spec()[a];
                    &&& ratio64_denom(q) > 0
                    &&& frac_eq(
                        ratio64_numer(q),
                        ratio64_denom(q),
                        proj_num(*seed, a, k) * ratio64_numer(s2) * ratio64_denom(seed.cartan_scale_spec()),
                        proj_den(*seed, k) * ratio64_denom(s2) * ratio64_numer(seed.cartan_scale_spec()),
                    )
                },
        decreases r - i,
    {
        match ladder_check(seed, i, &sp_dense[i]) {
            Err(e) => {
                return Err(e);
            },
            Ok(row) => {
                cartan_coeffs.push(row);
            },
        }
        i = i + 1;
    }
    let mut root_weights: Vec<Vec<Ratio<i64>>> = Vec::new();
    let mut i: usize = 0;
    while i < r
        invariant
            seed.wf(),
            seed_in_range(*seed),
            cartan_ok(*seed),
            r == seed.rank_spec(),
            d == seed.dim_spec(),
            i <= r,
            sp_dense@.len() == r,
            forall|a: int| 0 <= a < r ==> is_matrix((#[trigger] sp_dense@[a])@, d as int),
            forall|a: int| 0 <= a < r ==> mat_int((#[trigger] sp_dense@[a])@) == seed_sp(*seed, a),
            forall|a: int| 0 <= a < r ==> mat_bounded(mat_int((#[trigger] sp_dense@[a])@), d as int, 1024),
            root_weights@.len() == i,
            forall|a: int| 0 <= a < r ==> #[trigger] ladder_ok(*seed, a),
            forall|a: int, b: int| 0 <= a < i && 0 <= b < r ==> #[trigger] root_ok(*seed, a, b),
            forall|a: int| 0 <= a < i ==> (#[trigger] root_weights@[a])@.len() == r,
            forall|a: int, b: int|
                0 <= a < i && 0 <= b < r ==> {
                    let q = #[trigger] root_weights@[a]@[b];
                    let (r0, c0, v0) = seed.raising_spec()[a][0];
                    &&& ratio64_denom(q) > 0
                    &&& frac_eq(
                        ratio64_numer(q),
                        ratio64_denom(q),
                        root_comm(*seed, a, b)[r0 as int][c0 as int] * ratio64_numer(seed.cartan_scale_spec()),
                        v0 * ratio64_denom(seed.cartan_scale_spec()),
                    )
                },
        decreases r - i,
    {
        let mut row: Vec<Ratio<i64>> = Vec::new();
        let mut j: usize = 0;
        while j < r
            invariant
                seed.wf(),
                seed_in_range(*seed),
                r == seed.rank_spec(),
                d == seed.dim_spec(),
                i < r,
                j <= r,
                sp_dense@.len() == r,
                is_matrix(sp_dense@[i as int]@, d as int),
                mat_int(sp_dense@[i as int]@) == seed_sp(*seed, i as int),
                mat_bounded(mat_int(sp_dense@[i as int]@), d as int, 1024),
                row@.len() == j,
                cartan_ok(*seed),
                forall|a: int| 0 <= a < r ==> #[trigger] ladder_ok(*seed, a),
                forall|a: int, b: int| 0 <= a < i && 0 <= b < r ==> #[trigger] root_ok(*seed, a, b),
                forall|b: int| 0 <= b < j ==> #[trigger] root_ok(*seed, i as int, b),
                forall|b: int|
                    0 <= b < j ==> {
                        let q = #[trigger] row@[b];
                        let (r0, c0, v0) = seed.raising_spec()[i as int][0];
                        &&& ratio64_denom(q) > 0
                        &&& frac_eq(
                            ratio64_numer(q),
                            ratio64_denom(q),
                            root_comm(*seed, i as int, b)[r0 as int][c0 as int] * ratio64_numer(
                                seed.cartan_scale_spec(),
                            ),
                            v0 * ratio64_denom(seed.cartan_scale_spec()),
                        )
                    },
            decreases r - j,
        {
            match root_check(seed, i, j, &sp_dense[i]) {
                Err(e) => {
                    return Err(e);
                },
                Ok(q) => {
                    row.push(q);
                },
            }
            j = j + 1;
        }
        root_weights.push(row);
        i = i + 1;
    }
    Ok(CommReport { cartan_coeffs, root_weights })
}

/// Records with values bounded by `2^10` give a matrix bounded by `2^10`.
proof fn lemma_dense_bounded(recs: Seq<(usize, usize, i64)>, d: int)
    requires
        d >= 0,
        forall|t: int| 0 <= t < recs.len() ==> -1024 <= (#[trigger] recs[t]).2 <= 1024,
    ensures
        mat_bounded(dense_spec(recs, d), d, 1024),
{
    assert forall|row: int, col: int| 0 <= row < d && 0 <= col < d implies -1024
        <= #[trigger] dense_spec(recs, d)[row][col] <= 1024 by {
        lemma_record_entry_bounded(recs, row, col);
    }
}

proof fn lemma_record_entry_bounded(recs: Seq<(usize, usize, i64)>, row: int, col: int)
    requires
        forall|t: int| 0 <= t < recs.len() ==> -1024 <= (#[trigger] recs[t]).2 <= 1024,
    ensures
        -1024 <= record_entry(recs, row, col) <= 1024,
    decreases recs.len(),
{
    if recs.len() > 0 {
        let s = recs.drop_last();
        assert forall|t: int| 0 <= t < s.len() implies -1024 <= (#[trigger] s[t]).2 <= 1024 by {
            assert(s[t] == recs[t]);
        }
        lemma_record_entry_bounded(s, row, col);
        assert(recs.last() == recs[recs.len() - 1]);
    }
}

} // verus!








