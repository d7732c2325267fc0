//! The exact spinor generator seeds of `B_r = Spin(2r+1)` and
//! `D_r = Spin(2r)`, the second base case of the generator bootstrap.
//!
//! The carrier is the fermionic Fock space of `r` modes. A basis state is an
//! occupation string `(n_1, …, n_r)`, listed in descending lexicographic
//! order (the order the sweep produces every generator set in); its weight
//! in the ε-basis is `λ_k = n_k − ½`. The generators are the Jordan–Wigner
//! fermion operators on QSpace's node order:
//!
//! ```text
//! Sz[j] = n_{r-j} − ½                 (0-based j)
//! Sp[g] = c†_{r-1-g} c_{r-g}          (g < r-1)
//! Sp[r-1] = c†_r / √2                 (B_r)
//! Sp[r-1] = c†_{r-1} c†_r             (D_r)
//! ```
//!
//! For `D_r` every generator is fermion-number even, so the Fock space splits
//! into two half-spin sectors by the parity of `Σ n_k`. Cartan diagonals are
//! stored as the records `2λ = ±1` with Cartan scale `1/2`; the `B_r` short
//! root carries the squared ladder scale `1/2`.
use vstd::prelude::*;
use num_rational::Ratio;

use crate::bcd::{min_rank_spec, BcdError, Series};
use crate::bignum::{frac_eq, ratio64_denom, ratio64_new, ratio64_numer, ratio64_one};
use crate::seeds::{records_ok, Seed};

verus! {

/// Largest rank a spinor seed is built for: the `2^r` carrier states stay
/// indexable by machine integers.
pub const FOCK_RANK_BOUND: usize = 30;

/// `2^k`.
pub open spec fn two_pow(k: nat) -> nat
    decreases k,
{
    if k == 0 {
        1
    } else {
        2 * two_pow((k - 1) as nat)
    }
}

/// The occupation strings `(n_1, …, n_k)` of `k` modes in descending
/// lexicographic order.
pub open spec fn fock_desc(k: nat) -> Seq<Seq<bool>>
    decreases k,
{
    if k == 0 {
        seq![Seq::<bool>::empty()]
    } else {
        let prev = fock_desc((k - 1) as nat);
        Seq::new(2 * prev.len(), |i: int| prev[i / 2].push(i % 2 == 0))
    }
}

/// The position of an occupation string in [`fock_desc`] of its length.
pub open spec fn fock_pos(v: Seq<bool>) -> nat
    decreases v.len(),
{
    if v.len() == 0 {
        0
    } else {
        2 * fock_pos(v.drop_last()) + if v.last() {
            0nat
        } else {
            1nat
        }
    }
}

/// The number of occupied modes among the first `l`.
pub open spec fn occupied(v: Seq<bool>, l: int) -> nat
    decreases l,
{
    if l <= 0 {
        0
    } else {
        occupied(v, l - 1) + if v[l - 1] {
            1nat
        } else {
            0nat
        }
    }
}

/// The Jordan–Wigner sign `(-1)^(occupied(v, l))` of an operator on mode
/// `l` (0-based).
pub open spec fn jw_sign(v: Seq<bool>, l: int) -> int {
    if occupied(v, l) % 2 == 0 {
        1
    } else {
        -1
    }
}

/// The string of `l` modes occupied everywhere except mode `z` (all
/// occupied when `z` is out of range).
pub open spec fn all_but(l: nat, z: int) -> Seq<bool> {
    Seq::new(l, |i: int| i != z)
}

/// The carrier states: for `B_r` every string of `r` modes; for `D_r` the
/// strings of fermion parity `sector`, each a string of the first `r-1`
/// modes completed by the last mode.
pub open spec fn spinor_states(series: Series, r: nat, sector: nat) -> Seq<Seq<bool>> {
    if series == Series::B {
        fock_desc(r)
    } else {
        let prev = fock_desc((r - 1) as nat);
        Seq::new(prev.len(), |q: int| prev[q].push(occupied(prev[q], r - 1) % 2 != sector))
    }
}

/// The position of a carrier string in [`spinor_states`].
pub open spec fn spinor_pos(series: Series, v: Seq<bool>) -> nat {
    if series == Series::B {
        fock_pos(v)
    } else {
        fock_pos(v.drop_last())
    }
}

/// Whether the state `w` is reached by raising generator `g` (0-based).
pub open spec fn spinor_has_pre(series: Series, r: int, g: int, w: Seq<bool>) -> bool {
    if g < r - 1 {
        w[r - 2 - g] && !w[r - 1 - g]
    } else if series == Series::B {
        w[r - 1]
    } else {
        w[r - 1] && w[r - 2]
    }
}

/// The state raising generator `g` takes to `w`.
pub open spec fn spinor_pre(series: Series, r: int, g: int, w: Seq<bool>) -> Seq<bool> {
    if g < r - 1 {
        w.update(r - 2 - g, false).update(r - 1 - g, true)
    } else if series == Series::B {
        w.update(r - 1, false)
    } else {
        w.update(r - 1, false).update(r - 2, false)
    }
}

/// The Jordan–Wigner sign of raising generator `g` acting on `v`: the
/// annihilation (or first creation) sign times the creation sign, each
/// counting the occupied modes below the mode acted on.
pub open spec fn spinor_sign(series: Series, r: int, g: int, v: Seq<bool>) -> int {
    if g < r - 1 {
        jw_sign(v, r - 1 - g) * jw_sign(v.update(r - 1 - g, false), r - 2 - g)
    } else if series == Series::B {
        jw_sign(v, r - 1)
    } else {
        jw_sign(v, r - 1) * jw_sign(v.update(r - 1, true), r - 2)
    }
}

/// The records `(row, col, value)` of raising generator `g` for the first
/// `n` rows of the carrier, in ascending row order: row `q` holds a record
/// exactly when its state is reached, from the column of its preimage.
pub open spec fn spinor_records(series: Series, r: nat, sector: nat, g: int, n: nat) -> Seq<
    (usize, usize, i64),
>
    decreases n,
{
    if n == 0 {
        Seq::empty()
    } else {
        let prev = spinor_records(series, r, sector, g, (n - 1) as nat);
        let w = spinor_states(series, r, sector)[n - 1];
        if spinor_has_pre(series, r as int, g, w) {
            let v = spinor_pre(series, r as int, g, w);
            prev.push(
                (
                    (n - 1) as usize,
                    spinor_pos(series, v) as usize,
                    spinor_sign(series, r as int, g, v) as i64,
                ),
            )
        } else {
            prev
        }
    }
}

/// The `j`-th Cartan diagonal as records `2λ = 2 n_{r-j} − 1`.
pub open spec fn spinor_cartan(series: Series, r: nat, sector: nat, j: int) -> Seq<i64> {
    let s = spinor_states(series, r, sector);
    Seq::new(
        s.len(),
        |p: int|
            if s[p][r - 1 - j] {
                1i64
            } else {
                -1i64
            },
    )
}

/// The Dynkin label of the weight `λ_k = n_k − ½` of a carrier string.
pub open spec fn carrier_label(series: Series, v: Seq<bool>) -> Seq<i64> {
    let r = v.len() as int;
    let t = |k: int|
        if v[k] {
            1int
        } else {
            -1int
        };
    Seq::new(
        v.len(),
        |k: int|
            if k < r - 1 {
                ((t(k) - t(k + 1)) / 2) as i64
            } else if series == Series::B {
                t(k) as i64
            } else {
                ((t(k - 1) + t(k)) / 2) as i64
            },
    )
}

/// The fundamental weight `ω_i` (1-based) of rank `r` as a Dynkin label.
pub open spec fn omega(r: nat, i: int) -> Seq<i64> {
    Seq::new(
        r,
        |k: int|
            if k == i - 1 {
                1i64
            } else {
                0i64
            },
    )
}

/// The label a spinor carrier has: `ω_r` for `B_r`; for `D_r`, `ω_r` on the
/// sector of parity `r` and `ω_{r-1}` on the other.
pub open spec fn spinor_label(series: Series, r: nat, sector: nat) -> Seq<i64> {
    if series == Series::B || sector == r % 2 {
        omega(r, r as int)
    } else {
        omega(r, r - 1)
    }
}

/// `seed` is the spinor seed of `series` at rank `r` on `sector`.
pub open spec fn is_spinor_seed(seed: Seed, series: Series, r: nat, sector: nat) -> bool {
    let d = spinor_states(series, r, sector).len();
    &&& seed.series_spec() == series
    &&& seed.rank_spec() == r
    &&& seed.dim_spec() == d
    &&& forall|g: int|
        0 <= g < r ==> #[trigger] seed.raising_spec()[g] == spinor_records(series, r, sector, g, d)
    &&& forall|j: int| 0 <= j < r ==> #[trigger] seed.cartan_spec()[j] == spinor_cartan(series, r, sector, j)
    &&& frac_eq(ratio64_numer(seed.cartan_scale_spec()), ratio64_denom(seed.cartan_scale_spec()), 1, 2)
    &&& forall|g: int|
        0 <= g < r ==> frac_eq(
            ratio64_numer(#[trigger] seed.raising_scale2_spec()[g]),
            ratio64_denom(seed.raising_scale2_spec()[g]),
            1,
            if series == Series::B && g == r - 1 {
                2
            } else {
                1
            },
        )
}

/// Column `0` is a highest-weight state: no raising operator acts on it.
pub open spec fn first_state_is_highest(seed: Seed) -> bool {
    forall|g: int, t: int|
        0 <= g < seed.rank_spec() && 0 <= t < seed.raising_spec()[g].len() ==> (#[trigger] seed.raising_spec()[g][t]).1 != 0
}

// ---- lemmas on occupation strings -----------------------------------------------

proof fn lemma_two_pow_bound(k: nat)
    requires
        k <= 30,
    ensures
        1 <= two_pow(k) <= 1073741824,
    decreases k,
{
    if k > 0 {
        lemma_two_pow_bound((k - 1) as nat);
        if k < 30 {
            lemma_two_pow_mono((k - 1) as nat, 29);
            reveal_with_fuel(two_pow, 30);
        } else {
            reveal_with_fuel(two_pow, 31);
        }
    }
}

proof fn lemma_two_pow_pos(k: nat)
    ensures
        two_pow(k) >= 1,
    decreases k,
{
    if k > 0 {
        lemma_two_pow_pos((k - 1) as nat);
    }
}

proof fn lemma_two_pow_mono(a: nat, b: nat)
    requires
        a <= b,
    ensures
        two_pow(a) <= two_pow(b),
    decreases b,
{
    if a < b {
        lemma_two_pow_mono(a, (b - 1) as nat);
    }
}

/// Every string of [`fock_desc`] has `k` modes, and there are `2^k` of them.
proof fn lemma_fock_desc_shape(k: nat)
    ensures
        fock_desc(k).len() == two_pow(k),
        forall|i: int| 0 <= i < fock_desc(k).len() ==> (#[trigger] fock_desc(k)[i]).len() == k,
    decreases k,
{
    if k > 0 {
        lemma_fock_desc_shape((k - 1) as nat);
    }
}

/// Every string of `k` modes sits in [`fock_desc`] at its [`fock_pos`].
proof fn lemma_fock_pos(v: Seq<bool>)
    ensures
        fock_pos(v) < two_pow(v.len()),
        fock_desc(v.len())[fock_pos(v) as int] == v,
    decreases v.len(),
{
    if v.len() > 0 {
        let u = v.drop_last();
        lemma_fock_pos(u);
        lemma_fock_desc_shape(u.len());
        assert(v =~= u.push(v.last()));
    } else {
        assert(v =~= Seq::<bool>::empty());
    }
}

/// Only the fully occupied string has position `0`.
proof fn lemma_fock_pos_zero(v: Seq<bool>, i: int)
    requires
        fock_pos(v) == 0,
        0 <= i < v.len(),
    ensures
        v[i],
    decreases v.len(),
{
    if i < v.len() - 1 {
        lemma_fock_pos_zero(v.drop_last(), i);
    }
}

/// The first string of [`fock_desc`] is fully occupied.
proof fn lemma_fock_first(k: nat)
    ensures
        fock_desc(k)[0] == all_but(k, -1),
    decreases k,
{
    lemma_fock_desc_shape(k);
    if k > 0 {
        lemma_fock_first((k - 1) as nat);
        lemma_fock_desc_shape((k - 1) as nat);
        lemma_two_pow_pos((k - 1) as nat);
        assert(fock_desc(k)[0] =~= all_but(k, -1));
    } else {
        assert(fock_desc(k)[0] =~= all_but(k, -1));
    }
}

/// `occupied` reads only the first `l` modes.
proof fn lemma_occupied_prefix(v: Seq<bool>, u: Seq<bool>, l: int)
    requires
        0 <= l <= v.len(),
        l <= u.len(),
        forall|i: int| 0 <= i < l ==> v[i] == u[i],
    ensures
        occupied(v, l) == occupied(u, l),
    decreases l,
{
    if l > 0 {
        lemma_occupied_prefix(v, u, l - 1);
    }
}

/// The occupation count of [`all_but`].
proof fn lemma_occupied_all_but(l: nat, z: int, m: int)
    requires
        0 <= m <= l,
    ensures
        occupied(all_but(l, z), m) == m - if 0 <= z < m {
            1int
        } else {
            0int
        },
    decreases m,
{
    if m > 0 {
        lemma_occupied_all_but(l, z, m - 1);
    }
}

/// The ranks a spinor seed exists for.
pub open spec fn spinor_rank_ok(series: Series, r: nat) -> bool {
    &&& r <= 30
    &&& (series == Series::B && r >= 2) || (series == Series::D && r >= 3)
}

/// The carrier has `2^r` (`B`) or `2^(r-1)` (`D`) states of `r` modes each.
proof fn lemma_states_shape(series: Series, r: nat, sector: nat)
    requires
        spinor_rank_ok(series, r),
    ensures
        spinor_states(series, r, sector).len() == if series == Series::B {
            two_pow(r)
        } else {
            two_pow((r - 1) as nat)
        },
        spinor_states(series, r, sector).len() <= 1073741824,
        forall|q: int|
            0 <= q < spinor_states(series, r, sector).len() ==> (#[trigger] spinor_states(
                series,
                r,
                sector,
            )[q]).len() == r,
{
    lemma_fock_desc_shape(r);
    lemma_fock_desc_shape((r - 1) as nat);
    lemma_two_pow_bound(r);
    lemma_two_pow_bound((r - 1) as nat);
}

/// A `D_r` carrier string is its first `r-1` modes completed by the parity
/// bit, at the position of those modes.
proof fn lemma_d_state_at(r: nat, sector: nat, u: Seq<bool>)
    requires
        spinor_rank_ok(Series::D, r),
        u.len() == r - 1,
    ensures
        fock_pos(u) < spinor_states(Series::D, r, sector).len(),
        spinor_states(Series::D, r, sector)[fock_pos(u) as int] == u.push(
            occupied(u, r - 1) % 2 != sector,
        ),
{
    lemma_fock_pos(u);
    lemma_fock_desc_shape((r - 1) as nat);
}

/// Every record of a spinor raising generator lies in the carrier, carries
/// a unit value, and never starts from column `0`.
proof fn lemma_records_facts(series: Series, r: nat, sector: nat, g: int, n: nat)
    requires
        spinor_rank_ok(series, r),
        0 <= g < r,
        n <= spinor_states(series, r, sector).len(),
    ensures
        forall|t: int|
            0 <= t < spinor_records(series, r, sector, g, n).len() ==> {
                let rec = #[trigger] spinor_records(series, r, sector, g, n)[t];
                &&& rec.0 < n
                &&& rec.1 < spinor_states(series, r, sector).len()
                &&& rec.1 != 0
                &&& (rec.2 == 1 || rec.2 == -1)
            },
    decreases n,
{
    if n > 0 {
        lemma_records_facts(series, r, sector, g, (n - 1) as nat);
        lemma_states_shape(series, r, sector);
        let d = spinor_states(series, r, sector).len();
        let w = spinor_states(series, r, sector)[n - 1];
        if spinor_has_pre(series, r as int, g, w) {
            let v = spinor_pre(series, r as int, g, w);
            assert(v.len() == r);
            let z = if g < r - 1 {
                r - 2 - g
            } else if series == Series::B {
                r - 1
            } else {
                r - 2
            };
            assert(!v[z]);
            if series == Series::B {
                lemma_fock_pos(v);
                if fock_pos(v) == 0 {
                    lemma_fock_pos_zero(v, z);
                }
            } else {
                let u = v.drop_last();
                lemma_fock_pos(u);
                if fock_pos(u) == 0 {
                    lemma_fock_pos_zero(u, z);
                }
            }
            assert(spinor_pos(series, v) < d);
            assert(spinor_pos(series, v) != 0);
            lemma_spinor_sign_unit(series, r as int, g, v);
            let prev = spinor_records(series, r, sector, g, (n - 1) as nat);
            assert forall|t: int|
                0 <= t < spinor_records(series, r, sector, g, n).len() implies {
                let rec = #[trigger] spinor_records(series, r, sector, g, n)[t];
                &&& rec.0 < n
                &&& rec.1 < d
                &&& rec.1 != 0
                &&& (rec.2 == 1 || rec.2 == -1)
            } by {
                if t < prev.len() {
                    assert(spinor_records(series, r, sector, g, n)[t] == prev[t]);
                }
            }
        } else {
            assert(spinor_records(series, r, sector, g, n) == spinor_records(
                series,
                r,
                sector,
                g,
                (n - 1) as nat,
            ));
        }
    }
}

/// A Jordan–Wigner sign is a unit.
proof fn lemma_spinor_sign_unit(series: Series, r: int, g: int, v: Seq<bool>)
    ensures
        spinor_sign(series, r, g, v) == 1 || spinor_sign(series, r, g, v) == -1,
{
    let a = jw_sign(v, r - 1 - g);
    let b = jw_sign(v.update(r - 1 - g, false), r - 2 - g);
    let c = jw_sign(v, r - 1);
    let e = jw_sign(v.update(r - 1, true), r - 2);
    assert(a * b == 1 || a * b == -1) by (nonlinear_arith)
        requires
            a == 1 || a == -1,
            b == 1 || b == -1,
    ;
    assert(c * e == 1 || c * e == -1) by (nonlinear_arith)
        requires
            c == 1 || c == -1,
            e == 1 || e == -1,
    ;
}

/// A reached state among the first `n` rows leaves a record.
proof fn lemma_records_nonempty(series: Series, r: nat, sector: nat, g: int, n: nat, q: int)
    requires
        0 <= q < n,
        spinor_has_pre(series, r as int, g, spinor_states(series, r, sector)[q]),
    ensures
        spinor_records(series, r, sector, g, n).len() >= 1,
    decreases n,
{
    if q < n - 1 {
        lemma_records_nonempty(series, r, sector, g, (n - 1) as nat, q);
    }
}

/// Some carrier state is reached by raising generator `g`.
proof fn lemma_reached_state(series: Series, r: nat, sector: nat, g: int) -> (q: int)
    requires
        spinor_rank_ok(series, r),
        sector < 2,
        0 <= g < r,
    ensures
        0 <= q < spinor_states(series, r, sector).len(),
        spinor_has_pre(series, r as int, g, spinor_states(series, r, sector)[q]),
{
    if series == Series::B {
        let w = if g < r - 1 {
            all_but(r, r - 1 - g)
        } else {
            all_but(r, -1)
        };
        lemma_fock_pos(w);
        lemma_fock_desc_shape(r);
        fock_pos(w) as int
    } else {
        // The first `r-1` modes: all occupied, or all but one mode, to set the
        // parity bit as needed.
        let want_last = g == r - 1;
        let full_parity = (r - 1) % 2;
        let z = if g < r - 1 && g > 0 {
            r - 1 - g
        } else if (full_parity != sector) == want_last {
            -1
        } else {
            0
        };
        let u = all_but((r - 1) as nat, z);
        lemma_occupied_all_but((r - 1) as nat, z, r - 1);
        lemma_d_state_at(r, sector, u);
        let w = u.push(occupied(u, r - 1) % 2 != sector);
        if g < r - 1 && g > 0 {
            assert(w[r - 2 - g] == u[r - 2 - g]);
            assert(w[r - 1 - g] == u[r - 1 - g]);
        } else {
            assert(w[r - 2] == u[r - 2]);
            if z == -1 {
                assert(occupied(u, r - 1) == r - 1);
            } else {
                assert(occupied(u, r - 1) == r - 2);
                assert((r - 2) % 2 != full_parity);
            }
            assert(w[r - 1] == want_last);
        }
        fock_pos(u) as int
    }
}

/// The label of the first carrier state is the carrier's spinor label.
proof fn lemma_first_label(series: Series, r: nat, sector: nat)
    requires
        spinor_rank_ok(series, r),
        sector < 2,
        series == Series::B ==> sector == 0,
    ensures
        carrier_label(series, spinor_states(series, r, sector)[0]) == spinor_label(series, r, sector),
{
    lemma_fock_first(r);
    lemma_fock_first((r - 1) as nat);
    lemma_fock_desc_shape((r - 1) as nat);
    lemma_two_pow_pos((r - 1) as nat);
    let v = spinor_states(series, r, sector)[0];
    if series == Series::B {
        assert(v == all_but(r, -1));
    } else {
        let u = all_but((r - 1) as nat, -1);
        lemma_occupied_all_but((r - 1) as nat, -1, r - 1);
        assert(v == u.push((r - 1) % 2 != sector));
    }
    assert(carrier_label(series, v) =~= spinor_label(series, r, sector));
}

// ---- construction ----------------------------------------------------------------

/// A copy of an occupation string.
fn copy_bits(v: &Vec<bool>) -> (c: Vec<bool>)
    ensures
        c@ == v@,
{
    let mut c: Vec<bool> = Vec::new();
    let mut i: usize = 0;
    while i < v.len()
        invariant
            i <= v.len(),
            c@ == v@.subrange(0, i as int),
        decreases v.len() - i,
    {
        c.push(v[i]);
        i = i + 1;
    }
    assert(c@ =~= v@);
    c
}

/// [`fock_desc`]`(k)`, built one mode at a time.
fn fock_states(k: usize) -> (s: Vec<Vec<bool>>)
    requires
        k <= FOCK_RANK_BOUND,
    ensures
        s.len() == fock_desc(k as nat).len(),
        forall|i: int| 0 <= i < s.len() ==> (#[trigger] s@[i])@ == fock_desc(k as nat)[i],
{
    let mut cur: Vec<Vec<bool>> = Vec::new();
    cur.push(Vec::new());
    let mut level: usize = 0;
    proof {
        assert(cur@[0]@ =~= fock_desc(0)[0]);
    }
    while level < k
        invariant
            level <= k <= FOCK_RANK_BOUND,
            cur.len() == fock_desc(level as nat).len(),
            forall|i: int| 0 <= i < cur.len() ==> (#[trigger] cur@[i])@ == fock_desc(level as nat)[i],
        decreases k - level,
    {
        proof {
            lemma_fock_desc_shape(level as nat);
            lemma_two_pow_bound(level as nat + 1);
        }
        let ghost next_spec = fock_desc(level as nat + 1);
        let mut next: Vec<Vec<bool>> = Vec::new();
        let mut j: usize = 0;
        while j < cur.len()
            invariant
                j <= cur.len(),
                cur.len() == fock_desc(level as nat).len(),
                2 * cur.len() <= 1073741824,
                next_spec == fock_desc(level as nat + 1),
                forall|i: int| 0 <= i < cur.len() ==> (#[trigger] cur@[i])@ == fock_desc(level as nat)[i],
                next.len() == 2 * j,
                forall|i: int| 0 <= i < next.len() ==> (#[trigger] next@[i])@ == next_spec[i],
            decreases cur.len() - j,
        {
            let mut a = copy_bits(&cur[j]);
            a.push(true);
            next.push(a);
            let mut b = copy_bits(&cur[j]);
            b.push(false);
            next.push(b);
            j = j + 1;
        }
        cur = next;
        level = level + 1;
    }
    cur
}

/// The position of the first `len` modes of `v` in [`fock_desc`]`(len)`.
fn fock_index(v: &Vec<bool>, len: usize) -> (p: usize)
    requires
        len <= v.len(),
        len <= FOCK_RANK_BOUND,
    ensures
        p == fock_pos(v@.subrange(0, len as int)),
{
    let mut p: usize = 0;
    let mut i: usize = 0;
    proof {
        assert(v@.subrange(0, 0) =~= Seq::<bool>::empty());
    }
    while i < len
        invariant
            i <= len <= v.len(),
            len <= FOCK_RANK_BOUND,
            p == fock_pos(v@.subrange(0, i as int)),
            p < two_pow(i as nat),
        decreases len - i,
    {
        proof {
            assert(v@.subrange(0, i as int + 1).drop_last() =~= v@.subrange(0, i as int));
            lemma_two_pow_bound(i as nat + 1);
        }
        p = 2 * p + if v[i] {
            0
        } else {
            1
        };
        i = i + 1;
    }
    p
}

/// The number of occupied modes among the first `l` of `v`.
fn occupied_count(v: &Vec<bool>, l: usize) -> (c: usize)
    requires
        l <= v.len(),
    ensures
        c == occupied(v@, l as int),
{
    let mut c: usize = 0;
    let mut i: usize = 0;
    while i < l
        invariant
            i <= l <= v.len(),
            c == occupied(v@, i as int),
            c <= i,
        decreases l - i,
    {
        if v[i] {
            c = c + 1;
        }
        i = i + 1;
    }
    c
}

/// The Jordan–Wigner sign of an operator on mode `l` of `v`.
fn jw(v: &Vec<bool>, l: usize) -> (s: i64)
    requires
        l <= v.len(),
    ensures
        s == jw_sign(v@, l as int),
{
    let c = occupied_count(v, l);
    if c % 2 == 0 {
        1
    } else {
        -1
    }
}

/// The carrier states of [`spinor_states`].
fn carrier(series: Series, r: usize, sector: usize) -> (s: Vec<Vec<bool>>)
    requires
        spinor_rank_ok(series, r as nat),
        sector < 2,
    ensures
        s.len() == spinor_states(series, r as nat, sector as nat).len(),
        forall|q: int|
            0 <= q < s.len() ==> (#[trigger] s@[q])@ == spinor_states(series, r as nat, sector as nat)[q],
{
    match series {
        Series::B => fock_states(r),
        _ => {
            let prev = fock_states(r - 1);
            proof {
                lemma_fock_desc_shape((r - 1) as nat);
            }
            let mut out: Vec<Vec<bool>> = Vec::new();
            let mut q: usize = 0;
            while q < prev.len()
                invariant
                    series != Series::B,
                    spinor_rank_ok(series, r as nat),
                    sector < 2,
                    q <= prev.len(),
                    prev.len() == fock_desc((r - 1) as nat).len(),
                    forall|i: int|
                        0 <= i < prev.len() ==> (#[trigger] prev@[i])@ == fock_desc((r - 1) as nat)[i],
                    forall|i: int|
                        0 <= i < prev.len() ==> (#[trigger] fock_desc((r - 1) as nat)[i]).len() == r - 1,
                    out.len() == q,
                    forall|i: int|
                        0 <= i < q ==> (#[trigger] out@[i])@ == spinor_states(series, r as nat, sector as nat)[i],
                decreases prev.len() - q,
            {
                let mut w = copy_bits(&prev[q]);
                let c = occupied_count(&prev[q], r - 1);
                w.push(c % 2 != sector);
                out.push(w);
                q = q + 1;
            }
            out
        },
    }
}

/// The records of raising generator `g` over the carrier `states`.
fn raising_records(series: Series, r: usize, sector: usize, states: &Vec<Vec<bool>>, g: usize) -> (recs:
    Vec<(usize, usize, i64)>)
    requires
        spinor_rank_ok(series, r as nat),
        sector < 2,
        g < r,
        states.len() == spinor_states(series, r as nat, sector as nat).len(),
        forall|q: int|
            0 <= q < states.len() ==> (#[trigger] states@[q])@ == spinor_states(
                series,
                r as nat,
                sector as nat,
            )[q],
    ensures
        recs@ == spinor_records(series, r as nat, sector as nat, g as int, states.len() as nat),
{
    let is_b = match series {
        Series::B => true,
        _ => false,
    };
    proof {
        lemma_states_shape(series, r as nat, sector as nat);
    }
    let mut recs: Vec<(usize, usize, i64)> = Vec::new();
    let mut q: usize = 0;
    while q < states.len()
        invariant
            spinor_rank_ok(series, r as nat),
            sector < 2,
            g < r,
            is_b == (series == Series::B),
            q <= states.len(),
            states.len() == spinor_states(series, r as nat, sector as nat).len(),
            forall|i: int|
                0 <= i < states.len() ==> (#[trigger] states@[i])@ == spinor_states(
                    series,
                    r as nat,
                    sector as nat,
                )[i],
            forall|i: int|
                0 <= i < states.len() ==> (#[trigger] spinor_states(series, r as nat, sector as nat)[i]).len()
                    == r,
            recs@ == spinor_records(series, r as nat, sector as nat, g as int, q as nat),
        decreases states.len() - q,
    {
        let w = &states[q];
        let ghost wv = spinor_states(series, r as nat, sector as nat)[q as int];
        assert(w@ == wv);
        assert(w.len() == r);
        let reached = if g < r - 1 {
            w[r - 2 - g] && !w[r - 1 - g]
        } else if is_b {
            w[r - 1]
        } else {
            w[r - 1] && w[r - 2]
        };
        assert(reached == spinor_has_pre(series, r as int, g as int, wv));
        if reached {
            let mut v = copy_bits(w);
            let sign: i64;
            if g < r - 1 {
                v.set(r - 2 - g, false);
                v.set(r - 1 - g, true);
                let s1 = jw(&v, r - 1 - g);
                let mut v1 = copy_bits(&v);
                v1.set(r - 1 - g, false);
                let s2 = jw(&v1, r - 2 - g);
                assert(s1 * s2 == 1 || s1 * s2 == -1) by (nonlinear_arith)
                    requires
                        s1 == 1 || s1 == -1,
                        s2 == 1 || s2 == -1,
                ;
                sign = s1 * s2;
            } else if is_b {
                v.set(r - 1, false);
                sign = jw(&v, r - 1);
            } else {
                v.set(r - 1, false);
                v.set(r - 2, false);
                let s1 = jw(&v, r - 1);
                let mut v1 = copy_bits(&v);
                v1.set(r - 1, true);
                let s2 = jw(&v1, r - 2);
                assert(s1 * s2 == 1 || s1 * s2 == -1) by (nonlinear_arith)
                    requires
                        s1 == 1 || s1 == -1,
                        s2 == 1 || s2 == -1,
                ;
                sign = s1 * s2;
            }
            let ghost pre = spinor_pre(series, r as int, g as int, wv);
            assert(v@ == pre);
            assert(sign == spinor_sign(series, r as int, g as int, pre));
            let col = if is_b {
                fock_index(&v, r)
            } else {
                fock_index(&v, r - 1)
            };
            proof {
                if is_b {
                    assert(v@.subrange(0, r as int) =~= v@);
                } else {
                    assert(v@.subrange(0, r - 1) =~= v@.drop_last());
                }
                lemma_fock_pos(v@.subrange(0, if is_b { r as int } else { r - 1 }));
            }
            recs.push((q, col, sign));
        }
        q = q + 1;
    }
    recs
}

/// The `j`-th Cartan diagonal over the carrier `states`.
fn cartan_diag(series: Series, r: usize, sector: usize, states: &Vec<Vec<bool>>, j: usize) -> (z: Vec<
    i64,
>)
    requires
        spinor_rank_ok(series, r as nat),
        sector < 2,
        j < r,
        states.len() == spinor_states(series, r as nat, sector as nat).len(),
        forall|q: int|
            0 <= q < states.len() ==> (#[trigger] states@[q])@ == spinor_states(
                series,
                r as nat,
                sector as nat,
            )[q],
    ensures
        z@ == spinor_cartan(series, r as nat, sector as nat, j as int),
{
    proof {
        lemma_states_shape(series, r as nat, sector as nat);
    }
    let mut z: Vec<i64> = Vec::new();
    let mut p: usize = 0;
    while p < states.len()
        invariant
            j < r,
            p <= states.len(),
            states.len() == spinor_states(series, r as nat, sector as nat).len(),
            forall|q: int|
                0 <= q < states.len() ==> (#[trigger] states@[q])@ == spinor_states(
                    series,
                    r as nat,
                    sector as nat,
                )[q],
            forall|q: int|
                0 <= q < states.len() ==> (#[trigger] spinor_states(series, r as nat, sector as nat)[q]).len()
                    == r,
            z@.len() == p,
            forall|q: int| 0 <= q < p ==> z@[q] == spinor_cartan(series, r as nat, sector as nat, j as int)[q],
        decreases states.len() - p,
    {
        let w = &states[p];
        assert(w@.len() == r);
        let e: i64 = if w[r - 1 - j] {
            1
        } else {
            -1
        };
        z.push(e);
        p = p + 1;
    }
    assert(z@ =~= spinor_cartan(series, r as nat, sector as nat, j as int));
    z
}

/// The Dynkin label of the weight of the carrier string `v`.
fn label_of(series: Series, v: &Vec<bool>) -> (a: Vec<i64>)
    requires
        v.len() >= 2,
    ensures
        a@ == carrier_label(series, v@),
{
    let is_b = match series {
        Series::B => true,
        _ => false,
    };
    let r = v.len();
    let mut a: Vec<i64> = Vec::new();
    let mut k: usize = 0;
    while k < r
        invariant
            r == v.len() >= 2,
            is_b == (series == Series::B),
            k <= r,
            a@.len() == k,
            forall|i: int| 0 <= i < k ==> a@[i] == carrier_label(series, v@)[i],
        decreases r - k,
    {
        let x: i64 = if k < r - 1 {
            if v[k] == v[k + 1] {
                0
            } else if v[k] {
                1
            } else {
                -1
            }
        } else if is_b {
            if v[k] {
                1
            } else {
                -1
            }
        } else {
            if v[k - 1] == v[k] {
                if v[k] {
                    1
                } else {
                    -1
                }
            } else {
                0
            }
        };
        a.push(x);
        k = k + 1;
    }
    assert(a@ =~= carrier_label(series, v@));
    a
}

/// One spinor carrier entry of [`spinor_seeds`]: its label and seed.
pub open spec fn is_spinor_entry(e: (Vec<i64>, Seed), series: Series, r: nat, sector: nat) -> bool {
    &&& e.0@ == spinor_label(series, r, sector)
    &&& is_spinor_seed(e.1, series, r, sector)
    &&& first_state_is_highest(e.1)
}

/// The spinor seed on one sector, paired with the Dynkin label of its first
/// carrier state, which no raising operator acts on.
fn fock_seed(series: Series, r: usize, sector: usize) -> (res: (Vec<i64>, Seed))
    requires
        spinor_rank_ok(series, r as nat),
        sector < 2,
        series == Series::B ==> sector == 0,
    ensures
        is_spinor_entry(res, series, r as nat, sector as nat),
{
    let is_b = match series {
        Series::B => true,
        _ => false,
    };
    let states = carrier(series, r, sector);
    let d = states.len();
    let ghost dd = spinor_states(series, r as nat, sector as nat).len();
    proof {
        lemma_states_shape(series, r as nat, sector as nat);
        lemma_two_pow_pos(r as nat);
        lemma_two_pow_pos((r - 1) as nat);
    }
    let mut sp: Vec<Vec<(usize, usize, i64)>> = Vec::new();
    let mut sz: Vec<Vec<i64>> = Vec::new();
    let mut scales: Vec<Ratio<i64>> = Vec::new();
    let mut g: usize = 0;
    while g < r
        invariant
            spinor_rank_ok(series, r as nat),
            sector < 2,
            is_b == (series == Series::B),
            g <= r,
            d == dd,
            dd == spinor_states(series, r as nat, sector as nat).len(),
            states.len() == d,
            forall|q: int|
                0 <= q < states.len() ==> (#[trigger] states@[q])@ == spinor_states(
                    series,
                    r as nat,
                    sector as nat,
                )[q],
            sp@.len() == g,
            sz@.len() == g,
            scales@.len() == g,
            forall|k: int|
                0 <= k < g ==> (#[trigger] sp@[k])@ == spinor_records(
                    series,
                    r as nat,
                    sector as nat,
                    k,
                    dd,
                ),
            forall|k: int| 0 <= k < g ==> records_ok((#[trigger] sp@[k])@, d as int),
            forall|k: int|
                0 <= k < g ==> forall|t: int|
                    0 <= t < (#[trigger] sp@[k])@.len() ==> sp@[k]@[t].1 != 0,
            forall|k: int|
                0 <= k < g ==> (#[trigger] sz@[k])@ == spinor_cartan(series, r as nat, sector as nat, k),
            forall|k: int|
                0 <= k < g ==> ratio64_denom(#[trigger] scales@[k]) > 0 && frac_eq(
                    ratio64_numer(scales@[k]),
                    ratio64_denom(scales@[k]),
                    1,
                    if series == Series::B && k == r - 1 {
                        2
                    } else {
                        1
                    },
                ),
        decreases r - g,
    {
        proof {
            lemma_records_facts(series, r as nat, sector as nat, g as int, dd);
            let q = lemma_reached_state(series, r as nat, sector as nat, g as int);
            lemma_records_nonempty(series, r as nat, sector as nat, g as int, dd, q);
        }
        let recs = raising_records(series, r, sector, &states, g);
        sp.push(recs);
        sz.push(cartan_diag(series, r, sector, &states, g));
        let scale = if is_b && g == r - 1 {
            ratio64_new(1, 2)
        } else {
            ratio64_one()
        };
        scales.push(scale);
        g = g + 1;
    }
    let label = label_of(series, &states[0]);
    proof {
        lemma_first_label(series, r as nat, sector as nat);
        assert forall|i: int| 0 <= i < r implies (#[trigger] sz@[i])@.len() == d by {
            assert(sz@[i]@ == spinor_cartan(series, r as nat, sector as nat, i));
        }
    }
    let half = ratio64_new(1, 2);
    let seed = Seed::from_parts(series, r, d, sp, sz, half, scales);
    proof {
        assert(seed.raising_spec().len() == r);
        assert forall|k: int| 0 <= k < r implies #[trigger] seed.raising_spec()[k] == spinor_records(
            series,
            r as nat,
            sector as nat,
            k,
            dd,
        ) by {
            assert(seed.raising_spec()[k] == sp@[k]@);
        }
        assert forall|k: int| 0 <= k < r implies #[trigger] seed.cartan_spec()[k] == spinor_cartan(
            series,
            r as nat,
            sector as nat,
            k,
        ) by {
            assert(seed.cartan_spec()[k] == sz@[k]@);
        }
        assert forall|k: int, t: int|
            0 <= k < seed.rank_spec() && 0 <= t < seed.raising_spec()[k].len() implies (
            #[trigger] seed.raising_spec()[k][t]).1 != 0 by {
            assert(seed.raising_spec()[k] == sp@[k]@);
        }
    }
    (label, seed)
}

/// The exact spinor base-case seeds of `series` at rank `r`, each paired
/// with the Dynkin label of the irrep it carries, in ascending label order:
/// for `B_r` the spinor `ω_r` on `2^r` states; for `D_r` the half-spinors
/// `ω_r` and `ω_{r-1}` on `2^(r-1)` states each; for `C_r` none (`Sp(2r)` is
/// simply connected).
///
/// The low-rank isomorphisms are [`BcdError::ExcludedRank`], as for the
/// defining seeds.
pub fn spinor_seeds(series: Series, r: usize) -> (res: Result<Vec<(Vec<i64>, Seed)>, BcdError>)
    requires
        series != Series::C ==> r <= FOCK_RANK_BOUND,
    ensures
        r < min_rank_spec(series) <==> res is Err,
        res matches Err(e) ==> (e matches BcdError::ExcludedRank { series: s, rank, redirect } && s
            == series && rank == r && (series == Series::D ==> redirect@ == "use SU(2)×SU(2) instead"@)
            && (series != Series::D ==> redirect@ == "use SU(2) instead"@)),
        res matches Ok(v) ==> {
            &&& series == Series::C ==> v.len() == 0
            &&& series == Series::B ==> v.len() == 1 && is_spinor_entry(v[0], series, r as nat, 0)
            &&& series == Series::D ==> v.len() == 2 && is_spinor_entry(
                v[0],
                series,
                r as nat,
                (r % 2) as nat,
            ) && is_spinor_entry(v[1], series, r as nat, (1 - r % 2) as nat)
        },
{
    if r < series.min_rank() {
        return Err(BcdError::ExcludedRank { series, rank: r, redirect: series.low_rank_redirect() });
    }
    let mut out: Vec<(Vec<i64>, Seed)> = Vec::new();
    match series {
        Series::C => {},
        Series::B => {
            out.push(fock_seed(series, r, 0));
        },
        Series::D => {
            out.push(fock_seed(series, r, r % 2));
            out.push(fock_seed(series, r, 1 - r % 2));
        },
    }
    Ok(out)
}

} // verus!
