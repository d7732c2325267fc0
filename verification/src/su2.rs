//! Exact SU(2) labels and selection rules: triangle admissibility, the
//! canonical Regge keys of the 6j and 3j symbols, the checked representation
//! surface ([`Su2Irrep`], fusion), and the sign data of the R-symbol and the
//! Frobenius–Schur indicator.
//!
//! All spins are doubled: `dj = 2j` as `u32`, `dm = 2m` as `i32`.

use vstd::prelude::*;
use vstd::multiset::Multiset;
use vstd::string::StringSliceAdditionalSpecFns;

use crate::order::{le_i64, sort_ascending};
use num_bigint::BigInt;
use num_rational::Ratio;
use crate::bignum::{
    frac_eq, lemma_frac_pos, lemma_frac_sign, lemma_frac_trans, ratio_denom, ratio_mul, ratio_neg,
    ratio_new, ratio_numer, ratio_wf,
};
use crate::exact::{sgn, SignedSqrtRational};
use crate::primefactor::{
    exps_add, exps_add_fits, exps_bounded, exps_min, exps_sub, factorial as pf_factorial,
    factorial_spec, lemma_factorial_pos, lemma_pf_value_pos, lemma_series_congruent,
    lemma_series_den_pos, lemma_support_mono, lemma_trim_len, max_len, mul_factorial,
    pf_value, series_frac, series_term_ok, sum_series, support_le, term_values,
    trim_spec, exp_at, Pf, HALF_EXP,
};

verus! {

broadcast use vstd::seq_lib::group_to_multiset_ensures;

// ---- triangle admissibility ----------------------------------------------

/// Triangle admissibility of a doubled-spin triple: `|a-b| <= c <= a+b` and
/// `a+b+c` even.
pub open spec fn triangle(a: u32, b: u32, c: u32) -> bool {
    &&& (a + b + c) % 2 == 0
    &&& c >= a - b
    &&& c >= b - a
    &&& c <= a + b
}

/// The one triangle predicate every admissibility rule reduces to.
pub fn triangle_ok(a: u32, b: u32, c: u32) -> (ok: bool)
    ensures
        ok == triangle(a, b, c),
{
    let (a, b, c) = (a as i64, b as i64, c as i64);
    let d = if a >= b {
        a - b
    } else {
        b - a
    };
    (a + b + c) % 2 == 0 && c >= d && c <= a + b
}

/// The specific SU(2) admissibility rule a checked request violated.
#[derive(Clone, Copy, Debug, PartialEq, Eq, Structural)]
#[non_exhaustive]
pub enum AdmissibilityViolation {
    /// The doubled-spin triple `(a, b, c)` fails the triangle condition.
    Triangle {
        /// First doubled spin of the coupling.
        a: u32,
        /// Second doubled spin of the coupling.
        b: u32,
        /// Third doubled spin of the coupling.
        c: u32,
    },
    /// A 3j column violates its projection constraint: `|dm| > dj`, or
    /// `dj + dm` odd.
    Projection {
        /// Doubled spin of the offending column.
        dj: u32,
        /// Doubled projection of the offending column.
        dm: i32,
    },
    /// The 3j projections do not sum to zero.
    ProjectionSum {
        /// First doubled projection.
        dm1: i32,
        /// Second doubled projection.
        dm2: i32,
        /// Third doubled projection.
        dm3: i32,
    },
}

/// Error from a checked SU(2) representation or coefficient request.
#[derive(Clone, Copy, Debug, PartialEq, Eq, Structural)]
pub enum Su2Error {
    /// The sum of two doubled spins overflows `u32`.
    LabelOverflow {
        /// Left doubled spin.
        left: u32,
        /// Right doubled spin.
        right: u32,
    },
    /// The requested coupling is not admissible; the payload names the rule.
    NotAdmissible(AdmissibilityViolation),
    /// A doubled spin of an admissible request exceeds [`SPIN_BOUND`], the
    /// largest the exact engines' `u32` exponent arithmetic is proved for.
    SpinBeyondBound {
        /// The first doubled spin beyond the bound.
        dj: u32,
    },
}

/// The outcome of the triangle check of `(a, b, c)`.
pub open spec fn triangle_check(a: u32, b: u32, c: u32) -> Result<(), AdmissibilityViolation> {
    if triangle(a, b, c) {
        Ok(())
    } else {
        Err(AdmissibilityViolation::Triangle { a, b, c })
    }
}

/// Typed triangle check: `Ok(())` when admissible, else the violated
/// triangle.
fn check_triangle(a: u32, b: u32, c: u32) -> (res: Result<(), AdmissibilityViolation>)
    ensures
        res == triangle_check(a, b, c),
{
    if triangle_ok(a, b, c) {
        Ok(())
    } else {
        Err(AdmissibilityViolation::Triangle { a, b, c })
    }
}

/// The four triangles of the 6j `{d1 d2 d3; d4 d5 d6}`.
pub open spec fn six_j_admissible(d1: u32, d2: u32, d3: u32, d4: u32, d5: u32, d6: u32) -> bool {
    &&& triangle(d1, d2, d3)
    &&& triangle(d1, d5, d6)
    &&& triangle(d4, d2, d6)
    &&& triangle(d4, d5, d3)
}

/// The outcome of the 6j check: the first violated triangle, in the order
/// `(1,2,3), (1,5,6), (4,2,6), (4,5,3)`.
pub open spec fn six_j_check(d1: u32, d2: u32, d3: u32, d4: u32, d5: u32, d6: u32) -> Result<
    (),
    AdmissibilityViolation,
> {
    if !triangle(d1, d2, d3) {
        triangle_check(d1, d2, d3)
    } else if !triangle(d1, d5, d6) {
        triangle_check(d1, d5, d6)
    } else if !triangle(d4, d2, d6) {
        triangle_check(d4, d2, d6)
    } else {
        triangle_check(d4, d5, d3)
    }
}

fn check_6j_admissible(dj1: u32, dj2: u32, dj3: u32, dj4: u32, dj5: u32, dj6: u32) -> (res: Result<
    (),
    AdmissibilityViolation,
>)
    ensures
        res == six_j_check(dj1, dj2, dj3, dj4, dj5, dj6),
        res is Ok <==> six_j_admissible(dj1, dj2, dj3, dj4, dj5, dj6),
{
    check_triangle(dj1, dj2, dj3)?;
    check_triangle(dj1, dj5, dj6)?;
    check_triangle(dj4, dj2, dj6)?;
    check_triangle(dj4, dj5, dj3)
}

/// Whether a doubled projection lies on the ladder of a doubled spin.
pub open spec fn on_ladder(dj: u32, dm: i32) -> bool {
    &&& dm <= dj
    &&& -dm <= dj
    &&& (dj + dm) % 2 == 0
}

/// The outcome of the 3j check: the first violated rule, in the order m-sum,
/// projection of each column, triangle.
pub open spec fn three_j_check(d1: u32, d2: u32, d3: u32, m1: i32, m2: i32, m3: i32) -> Result<
    (),
    AdmissibilityViolation,
> {
    if m1 + m2 + m3 != 0 {
        Err(AdmissibilityViolation::ProjectionSum { dm1: m1, dm2: m2, dm3: m3 })
    } else if !on_ladder(d1, m1) {
        Err(AdmissibilityViolation::Projection { dj: d1, dm: m1 })
    } else if !on_ladder(d2, m2) {
        Err(AdmissibilityViolation::Projection { dj: d2, dm: m2 })
    } else if !on_ladder(d3, m3) {
        Err(AdmissibilityViolation::Projection { dj: d3, dm: m3 })
    } else {
        triangle_check(d1, d2, d3)
    }
}

/// Admissibility of the 3j `(d1 d2 d3; m1 m2 m3)`.
pub open spec fn three_j_admissible(d1: u32, d2: u32, d3: u32, m1: i32, m2: i32, m3: i32) -> bool {
    &&& m1 + m2 + m3 == 0
    &&& on_ladder(d1, m1)
    &&& on_ladder(d2, m2)
    &&& on_ladder(d3, m3)
    &&& triangle(d1, d2, d3)
}

fn check_ladder(dj: u32, dm: i32) -> (res: Result<(), AdmissibilityViolation>)
    ensures
        on_ladder(dj, dm) ==> res == Ok::<(), AdmissibilityViolation>(()),
        !on_ladder(dj, dm) ==> res == Err::<(), AdmissibilityViolation>(
            AdmissibilityViolation::Projection { dj, dm },
        ),
{
    let dji = dj as i64;
    let dmi = dm as i64;
    let abs = if dmi < 0 {
        -dmi
    } else {
        dmi
    };
    if abs > dji || (dji + dmi) % 2 != 0 {
        return Err(AdmissibilityViolation::Projection { dj, dm });
    }
    Ok(())
}

/// Typed 3j admissibility predicate shared by the Regge key and the checked
/// surface.
fn check_3j_admissible(dj1: u32, dj2: u32, dj3: u32, dm1: i32, dm2: i32, dm3: i32) -> (res:
    Result<(), AdmissibilityViolation>)
    ensures
        res == three_j_check(dj1, dj2, dj3, dm1, dm2, dm3),
        res is Ok <==> three_j_admissible(dj1, dj2, dj3, dm1, dm2, dm3),
{
    if (dm1 as i64) + (dm2 as i64) + (dm3 as i64) != 0 {
        return Err(AdmissibilityViolation::ProjectionSum { dm1, dm2, dm3 });
    }
    check_ladder(dj1, dm1)?;
    check_ladder(dj2, dm2)?;
    check_ladder(dj3, dm3)?;
    check_triangle(dj1, dj2, dj3)
}

fn admissible_3j(dj1: u32, dj2: u32, dj3: u32, dm1: i32, dm2: i32, dm3: i32) -> (ok: bool)
    ensures
        ok == three_j_admissible(dj1, dj2, dj3, dm1, dm2, dm3),
{
    check_3j_admissible(dj1, dj2, dj3, dm1, dm2, dm3).is_ok()
}

/// `(-1)^p < 0`, i.e. `p` odd.
fn phase_is_negative(p: i64) -> (neg: bool)
    ensures
        neg == (p % 2 == 1),
{
    let r = p % 2;
    r == 1 || r == -1
}

// ---- sign data: R-symbol and Frobenius–Schur ------------------------------

/// The SU(2) R-symbol `R^{dj1,dj2}_{dj3}` as a sign: `(-1)^{(dj1+dj2-dj3)/2}`
/// on an admissible triangle, `0` otherwise.
pub open spec fn r_symbol_sign_spec(dj1: u32, dj2: u32, dj3: u32) -> i8 {
    if !triangle(dj1, dj2, dj3) {
        0
    } else if ((dj1 + dj2 - dj3) / 2) % 2 == 1 {
        -1i8
    } else {
        1i8
    }
}

/// The SU(2) R-symbol `R^{dj1,dj2}_{dj3}` as an exact sign: `±1` on an
/// admissible fusion triangle (`(-1)^{j1+j2-j3}`), `0` otherwise, so a caller
/// never multiplies a spurious sign into a forbidden channel.
pub fn su2_r_symbol_sign(dj1: u32, dj2: u32, dj3: u32) -> (s: i8)
    ensures
        s == r_symbol_sign_spec(dj1, dj2, dj3),
{
    if !triangle_ok(dj1, dj2, dj3) {
        return 0;
    }
    if phase_is_negative(((dj1 as i64) + (dj2 as i64) - (dj3 as i64)) / 2) {
        -1
    } else {
        1
    }
}

/// Checked R-symbol sign: `Ok(±1)` on an admissible triangle, else
/// [`Su2Error::NotAdmissible`].
pub fn su2_r_symbol_sign_checked(dj1: u32, dj2: u32, dj3: u32) -> (res: Result<i8, Su2Error>)
    ensures
        triangle(dj1, dj2, dj3) ==> res == Ok::<i8, Su2Error>(r_symbol_sign_spec(dj1, dj2, dj3)),
        !triangle(dj1, dj2, dj3) ==> res == Err::<i8, Su2Error>(
            Su2Error::NotAdmissible(AdmissibilityViolation::Triangle { a: dj1, b: dj2, c: dj3 }),
        ),
{
    match check_triangle(dj1, dj2, dj3) {
        Ok(()) => Ok(su2_r_symbol_sign(dj1, dj2, dj3)),
        Err(v) => Err(Su2Error::NotAdmissible(v)),
    }
}

/// Frobenius–Schur phase of an SU(2) irrep, `(-1)^{2j} = (-1)^{dj}`: `+1` for
/// integer spin (orthogonal), `-1` for half-integer spin (symplectic).
pub fn su2_frobenius_schur_sign(dj: u32) -> (s: i8)
    ensures
        dj % 2 == 0 ==> s == 1,
        dj % 2 == 1 ==> s == -1,
{
    if dj % 2 == 0 {
        1
    } else {
        -1
    }
}

/// The R-symbol sign is fixed by the fusion channel: on the top channel
/// `j3 = j1 + j2` it is `+1`, and lowering `j3` by one (`dj3` by `2`) flips
/// it. It is `±1` on every admissible triangle, `0` off them, symmetric in
/// the two fused spins, and on the singlet channel of `j ⊗ j` it is the
/// Frobenius–Schur sign `(-1)^{2j}`.
pub proof fn lemma_r_symbol_sign_ladder(dj1: u32, dj2: u32, dj3: u32)
    ensures
        triangle(dj1, dj2, dj3) ==> r_symbol_sign_spec(dj1, dj2, dj3) == 1 || r_symbol_sign_spec(
            dj1,
            dj2,
            dj3,
        ) == -1,
        !triangle(dj1, dj2, dj3) ==> r_symbol_sign_spec(dj1, dj2, dj3) == 0,
        dj1 + dj2 <= u32::MAX ==> r_symbol_sign_spec(dj1, dj2, (dj1 + dj2) as u32) == 1,
        dj3 + 2 <= u32::MAX && triangle(dj1, dj2, dj3) && triangle(dj1, dj2, (dj3 + 2) as u32)
            ==> r_symbol_sign_spec(dj1, dj2, (dj3 + 2) as u32) == -r_symbol_sign_spec(dj1, dj2, dj3),
        r_symbol_sign_spec(dj2, dj1, dj3) == r_symbol_sign_spec(dj1, dj2, dj3),
        r_symbol_sign_spec(dj1, dj1, 0) == if dj1 % 2 == 0 {
            1i8
        } else {
            -1i8
        },
{
    if dj3 + 2 <= u32::MAX && triangle(dj1, dj2, dj3) && triangle(dj1, dj2, (dj3 + 2) as u32) {
        let k = (dj1 + dj2 - dj3) / 2;
        assert((dj1 + dj2 - dj3) == 2 * k);
        assert((dj1 + dj2 - (dj3 + 2)) / 2 == k - 1);
    }
    if dj1 + dj2 <= u32::MAX {
        assert(triangle(dj1, dj2, (dj1 + dj2) as u32));
    }
    assert(triangle(dj1, dj1, 0));
    assert((dj1 + dj1 - 0) / 2 == dj1);
}

// ---- the canonical Regge key of a 6j symbol -------------------------------

/// Why a label set has no canonical Regge key.
#[derive(Clone, Copy, Debug, PartialEq, Eq, Structural)]
pub enum ReggeError {
    /// The label set is not admissible, so the symbol is exactly zero and has
    /// no canonical representative.
    NonAdmissible,
    /// A canonical component exceeds `u16::MAX`: reported rather than
    /// silently truncated.
    Overflow,
}

/// Canonical Regge key for a 6j symbol: six nonnegative doubled-integer
/// components (Rasch–Yu canonical form). Every element of a 6j symmetry orbit
/// maps to the same key.
#[derive(Clone, Copy, Debug, PartialEq, Eq, Hash, PartialOrd, Ord)]
pub struct Regge6j([u16; 6]);

impl View for Regge6j {
    type V = Seq<u16>;

    closed spec fn view(&self) -> Seq<u16> {
        self.0@
    }
}

impl Regge6j {
    /// The six canonical components `(e, l, x, t, b, s)`.
    pub fn components(&self) -> (c: [u16; 6])
        ensures
            c@ == self@,
    {
        self.0
    }
}

/// The three four-term "square" sums of a 6j label set, halved.
pub open spec fn regge6j_alphas(d1: u32, d2: u32, d3: u32, d4: u32, d5: u32, d6: u32) -> Seq<i64> {
    seq![
        ((d1 + d2 + d4 + d5) / 2) as i64,
        ((d1 + d3 + d4 + d6) / 2) as i64,
        ((d2 + d3 + d5 + d6) / 2) as i64,
    ]
}

/// The four triangle sums of a 6j label set, halved.
pub open spec fn regge6j_betas(d1: u32, d2: u32, d3: u32, d4: u32, d5: u32, d6: u32) -> Seq<i64> {
    seq![
        ((d1 + d2 + d3) / 2) as i64,
        ((d1 + d5 + d6) / 2) as i64,
        ((d2 + d4 + d6) / 2) as i64,
        ((d3 + d4 + d5) / 2) as i64,
    ]
}

/// The six canonical Regge components of a 6j label set: with the alphas
/// sorted ascending (`a0 ≤ a1 ≤ a2`) and the betas sorted ascending
/// (`b0 ≤ … ≤ b3`), `(a2-b0, a1-b0, a0-b0, a0-b1, a0-b2, a0-b3)`.
pub open spec fn regge6j_components(d1: u32, d2: u32, d3: u32, d4: u32, d5: u32, d6: u32) -> Seq<
    int,
> {
    let a = regge6j_alphas(d1, d2, d3, d4, d5, d6).sort_by(le_i64());
    let b = regge6j_betas(d1, d2, d3, d4, d5, d6).sort_by(le_i64());
    seq![
        a[2] - b[0],
        a[1] - b[0],
        a[0] - b[0],
        a[0] - b[1],
        a[0] - b[2],
        a[0] - b[3],
    ]
}

/// Whether every component of a key fits `u16`.
pub open spec fn fits_u16(c: Seq<int>) -> bool {
    forall|k: int| 0 <= k < c.len() ==> c[k] <= u16::MAX
}

proof fn lemma_alphas_dominate_betas(d1: u32, d2: u32, d3: u32, d4: u32, d5: u32, d6: u32)
    requires
        six_j_admissible(d1, d2, d3, d4, d5, d6),
    ensures
        forall|i: int, j: int|
            0 <= i < 3 && 0 <= j < 4 ==> regge6j_alphas(d1, d2, d3, d4, d5, d6)[i]
                >= regge6j_betas(d1, d2, d3, d4, d5, d6)[j],
        forall|j: int| 0 <= j < 4 ==> regge6j_betas(d1, d2, d3, d4, d5, d6)[j] >= 0,
{
}

/// Canonical Regge key for `{dj1 dj2 dj3; dj4 dj5 dj6}` (Rasch–Yu): three
/// column sums `alpha` and four triangle sums `beta`, then the six
/// nonnegative differences `alpha - beta` in a fixed order.
///
/// Only admissible 6j symbols have a key; a component beyond `u16::MAX` is
/// [`ReggeError::Overflow`].
#[verifier::rlimit(60)]
pub fn canonical_regge_6j(dj1: u32, dj2: u32, dj3: u32, dj4: u32, dj5: u32, dj6: u32) -> (res:
    Result<Regge6j, ReggeError>)
    ensures
        !six_j_admissible(dj1, dj2, dj3, dj4, dj5, dj6) ==> res == Err::<Regge6j, ReggeError>(
            ReggeError::NonAdmissible,
        ),
        six_j_admissible(dj1, dj2, dj3, dj4, dj5, dj6) && !fits_u16(
            regge6j_components(dj1, dj2, dj3, dj4, dj5, dj6),
        ) ==> res == Err::<Regge6j, ReggeError>(ReggeError::Overflow),
        six_j_admissible(dj1, dj2, dj3, dj4, dj5, dj6) && fits_u16(
            regge6j_components(dj1, dj2, dj3, dj4, dj5, dj6),
        ) ==> (res matches Ok(key) && key@.len() == 6 && forall|k: int|
            0 <= k < 6 ==> key@[k] == regge6j_components(dj1, dj2, dj3, dj4, dj5, dj6)[k]),
{
    if !(triangle_ok(dj1, dj2, dj3) && triangle_ok(dj1, dj5, dj6) && triangle_ok(dj4, dj2, dj6)
        && triangle_ok(dj4, dj5, dj3)) {
        return Err(ReggeError::NonAdmissible);
    }
    proof {
        lemma_alphas_dominate_betas(dj1, dj2, dj3, dj4, dj5, dj6);
    }
    let (j1, j2, j3, j4, j5, j6) = (
        dj1 as i64,
        dj2 as i64,
        dj3 as i64,
        dj4 as i64,
        dj5 as i64,
        dj6 as i64,
    );
    let mut alpha: Vec<i64> = vec![(j1 + j2 + j4 + j5) / 2, (j1 + j3 + j4 + j6) / 2, (j2 + j3 + j5
        + j6) / 2];
    let mut beta: Vec<i64> = vec![(j1 + j2 + j3) / 2, (j1 + j5 + j6) / 2, (j2 + j4 + j6) / 2, (j3
        + j4 + j5) / 2];
    let ghost alphas = alpha@;
    let ghost betas = beta@;
    assert(alphas =~= regge6j_alphas(dj1, dj2, dj3, dj4, dj5, dj6));
    assert(betas =~= regge6j_betas(dj1, dj2, dj3, dj4, dj5, dj6));
    sort_ascending(&mut alpha);
    sort_ascending(&mut beta);
    proof {
        // Every sorted entry is one of the original entries.
        assert forall|i: int| #![trigger alpha@[i]] 0 <= i < 3 implies exists|k: int|
            0 <= k < 3 && alpha@[i] == #[trigger] alphas[k] by {
            assert(alpha@.contains(alpha@[i]));
            assert(alpha@.to_multiset().count(alpha@[i]) > 0);
            assert(alphas.to_multiset().count(alpha@[i]) > 0);
        }
        assert forall|i: int| #![trigger beta@[i]] 0 <= i < 4 implies exists|k: int|
            0 <= k < 4 && beta@[i] == #[trigger] betas[k] by {
            assert(beta@.contains(beta@[i]));
            assert(beta@.to_multiset().count(beta@[i]) > 0);
            assert(betas.to_multiset().count(beta@[i]) > 0);
        }
    }
    let raw: [i64; 6] = [
        alpha[2] - beta[0],
        alpha[1] - beta[0],
        alpha[0] - beta[0],
        alpha[0] - beta[1],
        alpha[0] - beta[2],
        alpha[0] - beta[3],
    ];
    let ghost comps = regge6j_components(dj1, dj2, dj3, dj4, dj5, dj6);
    assert(forall|k: int| 0 <= k < 6 ==> raw@[k] == comps[k]);
    let mut out = [0u16; 6];
    let mut k: usize = 0;
    while k < 6
        invariant
            0 <= k <= 6,
            forall|m: int| 0 <= m < 6 ==> raw@[m] == comps[m],
            forall|m: int| 0 <= m < 6 ==> raw@[m] >= 0,
            forall|m: int| 0 <= m < k ==> raw@[m] <= u16::MAX && out@[m] == raw@[m],
            comps.len() == 6,
            comps == regge6j_components(dj1, dj2, dj3, dj4, dj5, dj6),
            six_j_admissible(dj1, dj2, dj3, dj4, dj5, dj6),
        decreases 6 - k,
    {
        let v = raw[k];
        if v > 65535 {
            assert(comps[k as int] > u16::MAX);
            return Err(ReggeError::Overflow);
        }
        out[k] = v as u16;
        k = k + 1;
    }
    Ok(Regge6j(out))
}

/// The Regge key of a 6j label set, or `None` when the set is not
/// admissible.
pub open spec fn regge6j_key(d1: u32, d2: u32, d3: u32, d4: u32, d5: u32, d6: u32) -> Option<
    Seq<int>,
> {
    if six_j_admissible(d1, d2, d3, d4, d5, d6) {
        Some(regge6j_components(d1, d2, d3, d4, d5, d6))
    } else {
        None
    }
}

proof fn lemma_ms3(a: i64, b: i64, c: i64)
    ensures
        seq![a, b, c].to_multiset() =~= Multiset::empty().insert(a).insert(b).insert(c),
{
    broadcast use vstd::multiset::group_multiset_axioms;

    assert(seq![a, b, c] =~= seq![a, b].push(c));
    assert(seq![a, b] =~= seq![a].push(b));
    assert(seq![a] =~= Seq::<i64>::empty().push(a));
}

proof fn lemma_ms4(a: i64, b: i64, c: i64, d: i64)
    ensures
        seq![a, b, c, d].to_multiset() =~= Multiset::empty().insert(a).insert(b).insert(c).insert(
            d,
        ),
{
    broadcast use vstd::multiset::group_multiset_axioms;

    assert(seq![a, b, c, d] =~= seq![a, b, c].push(d));
    lemma_ms3(a, b, c);
}

/// Two sequences with the same elements have the same sort.
proof fn lemma_same_sort(s: Seq<i64>, t: Seq<i64>)
    requires
        s.to_multiset() == t.to_multiset(),
    ensures
        s.sort_by(le_i64()) == t.sort_by(le_i64()),
{
    crate::order::lemma_le_i64_total();
    s.lemma_sort_by_ensures(le_i64());
    t.lemma_sort_by_ensures(le_i64());
    vstd::seq_lib::lemma_sorted_unique(s.sort_by(le_i64()), t.sort_by(le_i64()), le_i64());
}

/// Exchanging the first two columns, `{d1 d2 d3; d4 d5 d6} ↦
/// {d2 d1 d3; d5 d4 d6}`, keeps the Regge key.
pub proof fn lemma_regge6j_swap_columns_12(d1: u32, d2: u32, d3: u32, d4: u32, d5: u32, d6: u32)
    ensures
        regge6j_key(d2, d1, d3, d5, d4, d6) == regge6j_key(d1, d2, d3, d4, d5, d6),
{
    broadcast use vstd::multiset::group_multiset_axioms;

    let a = regge6j_alphas(d1, d2, d3, d4, d5, d6);
    let b = regge6j_betas(d1, d2, d3, d4, d5, d6);
    let a2 = regge6j_alphas(d2, d1, d3, d5, d4, d6);
    let b2 = regge6j_betas(d2, d1, d3, d5, d4, d6);
    lemma_ms3(a[0], a[1], a[2]);
    lemma_ms3(a2[0], a2[1], a2[2]);
    lemma_ms4(b[0], b[1], b[2], b[3]);
    lemma_ms4(b2[0], b2[1], b2[2], b2[3]);
    assert(a == seq![a[0], a[1], a[2]]);
    assert(a2 == seq![a2[0], a2[1], a2[2]]);
    assert(b == seq![b[0], b[1], b[2], b[3]]);
    assert(b2 == seq![b2[0], b2[1], b2[2], b2[3]]);
    assert(a2[0] == a[0] && a2[1] == a[2] && a2[2] == a[1]);
    assert(b2[0] == b[0] && b2[1] == b[2] && b2[2] == b[1] && b2[3] == b[3]);
    assert(a2.to_multiset() =~= a.to_multiset());
    assert(b2.to_multiset() =~= b.to_multiset());
    lemma_same_sort(a, a2);
    lemma_same_sort(b, b2);
}

/// Exchanging the last two columns, `{d1 d2 d3; d4 d5 d6} ↦
/// {d1 d3 d2; d4 d6 d5}`, keeps the Regge key.
pub proof fn lemma_regge6j_swap_columns_23(d1: u32, d2: u32, d3: u32, d4: u32, d5: u32, d6: u32)
    ensures
        regge6j_key(d1, d3, d2, d4, d6, d5) == regge6j_key(d1, d2, d3, d4, d5, d6),
{
    broadcast use vstd::multiset::group_multiset_axioms;

    let a = regge6j_alphas(d1, d2, d3, d4, d5, d6);
    let b = regge6j_betas(d1, d2, d3, d4, d5, d6);
    let a2 = regge6j_alphas(d1, d3, d2, d4, d6, d5);
    let b2 = regge6j_betas(d1, d3, d2, d4, d6, d5);
    lemma_ms3(a[0], a[1], a[2]);
    lemma_ms3(a2[0], a2[1], a2[2]);
    lemma_ms4(b[0], b[1], b[2], b[3]);
    lemma_ms4(b2[0], b2[1], b2[2], b2[3]);
    assert(a == seq![a[0], a[1], a[2]]);
    assert(a2 == seq![a2[0], a2[1], a2[2]]);
    assert(b == seq![b[0], b[1], b[2], b[3]]);
    assert(b2 == seq![b2[0], b2[1], b2[2], b2[3]]);
    assert(a2[0] == a[1] && a2[1] == a[0] && a2[2] == a[2]);
    assert(b2[0] == b[0] && b2[1] == b[1] && b2[2] == b[3] && b2[3] == b[2]);
    assert(a2.to_multiset() =~= a.to_multiset());
    assert(b2.to_multiset() =~= b.to_multiset());
    lemma_same_sort(a, a2);
    lemma_same_sort(b, b2);
}

/// Exchanging upper and lower labels in the first two columns,
/// `{d1 d2 d3; d4 d5 d6} ↦ {d4 d5 d3; d1 d2 d6}`, keeps the Regge key.
pub proof fn lemma_regge6j_flip_rows(d1: u32, d2: u32, d3: u32, d4: u32, d5: u32, d6: u32)
    ensures
        regge6j_key(d4, d5, d3, d1, d2, d6) == regge6j_key(d1, d2, d3, d4, d5, d6),
{
    broadcast use vstd::multiset::group_multiset_axioms;

    let a = regge6j_alphas(d1, d2, d3, d4, d5, d6);
    let b = regge6j_betas(d1, d2, d3, d4, d5, d6);
    let a2 = regge6j_alphas(d4, d5, d3, d1, d2, d6);
    let b2 = regge6j_betas(d4, d5, d3, d1, d2, d6);
    lemma_ms3(a[0], a[1], a[2]);
    lemma_ms3(a2[0], a2[1], a2[2]);
    lemma_ms4(b[0], b[1], b[2], b[3]);
    lemma_ms4(b2[0], b2[1], b2[2], b2[3]);
    assert(a == seq![a[0], a[1], a[2]]);
    assert(a2 == seq![a2[0], a2[1], a2[2]]);
    assert(b == seq![b[0], b[1], b[2], b[3]]);
    assert(b2 == seq![b2[0], b2[1], b2[2], b2[3]]);
    assert(a2[0] == a[0] && a2[1] == a[1] && a2[2] == a[2]);
    assert(b2[0] == b[3] && b2[1] == b[2] && b2[2] == b[1] && b2[3] == b[0]);
    assert(a2.to_multiset() =~= a.to_multiset());
    assert(b2.to_multiset() =~= b.to_multiset());
    lemma_same_sort(a, a2);
    lemma_same_sort(b, b2);
}

/// Regge's symmetry keeps the key: for an admissible `{d1 d2 d3; d4 d5 d6}`,
/// the label set `{d1 e2 e3; d4 e5 e6}` with `e2 = (d2+d3+d5-d6)/2`,
/// `e3 = (d2+d3-d5+d6)/2`, `e5 = (d5+d6+d2-d3)/2`, `e6 = (d5+d6-d2+d3)/2` is
/// admissible and has the same key. Together with the tetrahedral
/// generators above this generates the 144-element symmetry group, every
/// element of which maps to the same canonical key.
pub proof fn lemma_regge6j_regge_symmetry(
    d1: u32,
    d2: u32,
    d3: u32,
    d4: u32,
    d5: u32,
    d6: u32,
    e2: u32,
    e3: u32,
    e5: u32,
    e6: u32,
)
    requires
        six_j_admissible(d1, d2, d3, d4, d5, d6),
        2 * e2 == d2 + d3 + d5 - d6,
        2 * e3 == d2 + d3 - d5 + d6,
        2 * e5 == d5 + d6 + d2 - d3,
        2 * e6 == d5 + d6 - d2 + d3,
    ensures
        regge6j_key(d1, e2, e3, d4, e5, e6) == regge6j_key(d1, d2, d3, d4, d5, d6),
{
    broadcast use vstd::multiset::group_multiset_axioms;

    assert(six_j_admissible(d1, e2, e3, d4, e5, e6));
    let a = regge6j_alphas(d1, d2, d3, d4, d5, d6);
    let b = regge6j_betas(d1, d2, d3, d4, d5, d6);
    let a2 = regge6j_alphas(d1, e2, e3, d4, e5, e6);
    let b2 = regge6j_betas(d1, e2, e3, d4, e5, e6);
    assert(a2 =~= a);
    lemma_ms4(b[0], b[1], b[2], b[3]);
    lemma_ms4(b2[0], b2[1], b2[2], b2[3]);
    assert(b == seq![b[0], b[1], b[2], b[3]]);
    assert(b2 == seq![b2[0], b2[1], b2[2], b2[3]]);
    assert(b2[0] == b[0] && b2[1] == b[1] && b2[2] == b[3] && b2[3] == b[2]);
    assert(b2.to_multiset() =~= b.to_multiset());
    lemma_same_sort(b, b2);
}

// ---- the canonical Regge key of a 3j symbol --------------------------------

/// Compensation phase relating a 3j symbol to its canonical representative.
///
/// Odd column permutations and the m-negation multiply the symbol by
/// `(-1)^(j1+j2+j3)`; even permutations preserve it.
#[derive(Clone, Copy, Debug, PartialEq, Eq, Structural)]
pub enum ReggePhase {
    /// The input and its canonical representative have equal value.
    Plus,
    /// The input's value is the representative's, negated.
    Minus,
}

/// Canonical key for a 3j symbol: the doubled spins and doubled projections
/// of the lexicographically maximal image over the 12-element classical
/// symmetry orbit.
#[derive(Clone, Copy, Debug, PartialEq, Eq, Hash, PartialOrd, Ord)]
pub struct Regge3j {
    dj: [u16; 3],
    dm: [i32; 3],
}

impl View for Regge3j {
    type V = (Seq<u16>, Seq<i32>);

    closed spec fn view(&self) -> (Seq<u16>, Seq<i32>) {
        (self.dj@, self.dm@)
    }
}

impl Regge3j {
    /// The canonical doubled spins `(dj1, dj2, dj3)`.
    pub fn doubled_spins(&self) -> (s: [u16; 3])
        ensures
            s@ == self@.0,
    {
        self.dj
    }

    /// The canonical doubled projections `(dm1, dm2, dm3)`.
    pub fn doubled_projections(&self) -> (p: [i32; 3])
        ensures
            p@ == self@.1,
    {
        self.dm
    }
}

/// The column map of permutation `p` (`0 ≤ p < 6`) in the fixed enumeration
/// order `id, (1 2), (0 1), (0 1 2), (0 2 1), (0 2)`.
pub open spec fn perm3(p: int) -> Seq<int> {
    if p == 0 {
        seq![0, 1, 2]
    } else if p == 1 {
        seq![0, 2, 1]
    } else if p == 2 {
        seq![1, 0, 2]
    } else if p == 3 {
        seq![1, 2, 0]
    } else if p == 4 {
        seq![2, 0, 1]
    } else {
        seq![2, 1, 0]
    }
}

/// Whether permutation `p` of the enumeration is odd.
pub open spec fn perm3_odd(p: int) -> bool {
    p == 1 || p == 2 || p == 5
}

/// The image `(dj, dm)` of a label set under group element `g = 2p + neg`.
pub open spec fn image3j(dj: Seq<int>, dm: Seq<int>, g: int) -> (Seq<int>, Seq<int>) {
    let p = perm3(g / 2);
    let neg = g % 2 == 1;
    (
        seq![dj[p[0]], dj[p[1]], dj[p[2]]],
        if neg {
            seq![-dm[p[0]], -dm[p[1]], -dm[p[2]]]
        } else {
            seq![dm[p[0]], dm[p[1]], dm[p[2]]]
        },
    )
}

/// Lexicographic `<` on two triples.
pub open spec fn lex3_lt(a: Seq<int>, b: Seq<int>) -> bool {
    a[0] < b[0] || (a[0] == b[0] && (a[1] < b[1] || (a[1] == b[1] && a[2] < b[2])))
}

/// Lexicographic `<` on label pairs `(dj, dm)`.
pub open spec fn lex_lt(a: (Seq<int>, Seq<int>), b: (Seq<int>, Seq<int>)) -> bool {
    lex3_lt(a.0, b.0) || (a.0 == b.0 && lex3_lt(a.1, b.1))
}

/// The sign of group element `g`: `-1` when `J = (dj1+dj2+dj3)/2` is odd and
/// `g` is an odd generator (odd permutation xor m-negation), else `+1`.
pub open spec fn eps3j(dj: Seq<int>, g: int) -> int {
    let j_odd = ((dj[0] + dj[1] + dj[2]) / 2) % 2 != 0;
    let odd_op = perm3_odd(g / 2) != (g % 2 == 1);
    if j_odd && odd_op {
        -1
    } else {
        1
    }
}

/// The canonical representative: the index of the first lexicographically
/// maximal image among the first `n` group elements.
pub open spec fn best3j(dj: Seq<int>, dm: Seq<int>, n: int) -> int
    decreases n,
{
    if n <= 1 {
        0
    } else {
        let prev = best3j(dj, dm, n - 1);
        if lex_lt(image3j(dj, dm, prev), image3j(dj, dm, n - 1)) {
            n - 1
        } else {
            prev
        }
    }
}

pub(crate) proof fn lemma_best3j_is_max(dj: Seq<int>, dm: Seq<int>, n: int)
    requires
        1 <= n <= 12,
    ensures
        0 <= best3j(dj, dm, n) < n,
        forall|g: int|
            0 <= g < n ==> !lex_lt(image3j(dj, dm, best3j(dj, dm, n)), #[trigger] image3j(dj, dm, g)),
    decreases n,
{
    if n > 1 {
        lemma_best3j_is_max(dj, dm, n - 1);
        let prev = best3j(dj, dm, n - 1);
        assert forall|g: int| 0 <= g < n implies !lex_lt(
            image3j(dj, dm, best3j(dj, dm, n)),
            #[trigger] image3j(dj, dm, g),
        ) by {
            if g < n - 1 {
                assert(!lex_lt(image3j(dj, dm, prev), image3j(dj, dm, g)));
            }
        }
    }
}

/// Canonicalize a doubled-unit 3j label set over its 12-element classical
/// symmetry group: returns the lexicographically maximal image (first in the
/// enumeration order on ties) and its sign relative to the input.
fn canonicalize3j(dj: [i64; 3], dm: [i64; 3]) -> (res: ([i64; 3], [i64; 3], i8))
    requires
        forall|i: int| #![trigger dj@[i]] 0 <= i < 3 ==> 0 <= dj@[i] <= u32::MAX && -dj@[i] <= dm@[i] <= dj@[i],
    ensures
        ({
            let djs = dj@.map_values(|x: i64| x as int);
            let dms = dm@.map_values(|x: i64| x as int);
            let g = best3j(djs, dms, 12);
            &&& res.0@.map_values(|x: i64| x as int) == image3j(djs, dms, g).0
            &&& res.1@.map_values(|x: i64| x as int) == image3j(djs, dms, g).1
            &&& res.2 as int == eps3j(djs, g)
        }),
{
    let ghost djs = dj@.map_values(|x: i64| x as int);
    let ghost dms = dm@.map_values(|x: i64| x as int);
    let j_odd = ((dj[0] + dj[1] + dj[2]) / 2) % 2 != 0;
    let perms: [[usize; 3]; 6] = [[0, 1, 2], [0, 2, 1], [1, 0, 2], [1, 2, 0], [2, 0, 1], [2, 1, 0]];
    let odd: [bool; 6] = [false, true, true, false, false, true];
    let mut best_j: [i64; 3] = [dj[0], dj[1], dj[2]];
    let mut best_m: [i64; 3] = [dm[0], dm[1], dm[2]];
    let mut best_eps: i8 = 1;
    let mut g: usize = 1;
    assert(image3j(djs, dms, 0).0 =~= best_j@.map_values(|x: i64| x as int));
    assert(image3j(djs, dms, 0).1 =~= best_m@.map_values(|x: i64| x as int));
    while g < 12
        invariant
            1 <= g <= 12,
            djs == dj@.map_values(|x: i64| x as int),
            dms == dm@.map_values(|x: i64| x as int),
            forall|i: int| #![trigger dj@[i]] 0 <= i < 3 ==> 0 <= dj@[i] <= u32::MAX && -dj@[i] <= dm@[i] <= dj@[i],
            j_odd == (((djs[0] + djs[1] + djs[2]) / 2) % 2 != 0),
            forall|p: int| 0 <= p < 6 ==> perm3(p) == perms[p]@.map_values(|x: usize| x as int),
            forall|p: int| 0 <= p < 6 ==> perm3_odd(p) == odd[p],
            forall|q: int, i: int| 0 <= q < 6 && 0 <= i < 3 ==> #[trigger] perms[q][i] < 3,
            best_j@.map_values(|x: i64| x as int) == image3j(djs, dms, best3j(djs, dms, g as int)).0,
            best_m@.map_values(|x: i64| x as int) == image3j(djs, dms, best3j(djs, dms, g as int)).1,
            best_eps as int == eps3j(djs, best3j(djs, dms, g as int)),
        decreases 12 - g,
    {
        let p = perms[g / 2];
        let neg = g % 2 == 1;
        let pj: [i64; 3] = [dj[p[0]], dj[p[1]], dj[p[2]]];
        let m: [i64; 3] = if neg {
            [-dm[p[0]], -dm[p[1]], -dm[p[2]]]
        } else {
            [dm[p[0]], dm[p[1]], dm[p[2]]]
        };
        let odd_ops = odd[g / 2] != neg;
        let eps: i8 = if j_odd && odd_ops {
            -1
        } else {
            1
        };
        let ghost img = image3j(djs, dms, g as int);
        assert(img.0 =~= pj@.map_values(|x: i64| x as int));
        assert(img.1 =~= m@.map_values(|x: i64| x as int));
        let greater = pj[0] > best_j[0] || (pj[0] == best_j[0] && (pj[1] > best_j[1] || (pj[1]
            == best_j[1] && pj[2] > best_j[2]))) || (pj[0] == best_j[0] && pj[1] == best_j[1]
            && pj[2] == best_j[2] && (m[0] > best_m[0] || (m[0] == best_m[0] && (m[1] > best_m[1]
            || (m[1] == best_m[1] && m[2] > best_m[2])))));
        proof {
            let bi = image3j(djs, dms, best3j(djs, dms, g as int));
            assert(bi.0 =~= best_j@.map_values(|x: i64| x as int));
            assert(bi.0[0] == best_j[0] && bi.0[1] == best_j[1] && bi.0[2] == best_j[2]);
            assert(bi.1[0] == best_m[0] && bi.1[1] == best_m[1] && bi.1[2] == best_m[2]);
            assert(img.0[0] == pj[0] && img.0[1] == pj[1] && img.0[2] == pj[2]);
            assert(img.1[0] == m[0] && img.1[1] == m[1] && img.1[2] == m[2]);
            if greater {
                assert(lex_lt(bi, img));
            } else {
                if lex3_lt(bi.0, img.0) {
                    assert(false);
                }
                if bi.0 == img.0 && lex3_lt(bi.1, img.1) {
                    assert(bi.0[0] == img.0[0]);
                    assert(false);
                }
                assert(!lex_lt(bi, img));
            }
        }
        if greater {
            best_j = pj;
            best_m = m;
            best_eps = eps;
        }
        g = g + 1;
    }
    (best_j, best_m, best_eps)
}

/// The canonical 3j representative `(dj, dm)` of a label set and its phase.
pub open spec fn regge3j_rep(d1: u32, d2: u32, d3: u32, m1: i32, m2: i32, m3: i32) -> (
    (Seq<int>, Seq<int>),
    int,
) {
    let djs = seq![d1 as int, d2 as int, d3 as int];
    let dms = seq![m1 as int, m2 as int, m3 as int];
    let g = best3j(djs, dms, 12);
    (image3j(djs, dms, g), eps3j(djs, g))
}

/// Canonical Regge key and compensation phase for `(dj1 dj2 dj3; dm1 dm2
/// dm3)`: `value(input) == phase.apply(value(rep))` where `rep` is the symbol
/// named by the key.
///
/// A non-admissible 3j has no key; a doubled spin beyond `u16::MAX` is
/// [`ReggeError::Overflow`].
#[verifier::rlimit(100)]
#[verifier::spinoff_prover]
pub fn canonical_regge_3j(dj1: u32, dj2: u32, dj3: u32, dm1: i32, dm2: i32, dm3: i32) -> (res:
    Result<(Regge3j, ReggePhase), ReggeError>)
    ensures
        !three_j_admissible(dj1, dj2, dj3, dm1, dm2, dm3) ==> res == Err::<
            (Regge3j, ReggePhase),
            ReggeError,
        >(ReggeError::NonAdmissible),
        three_j_admissible(dj1, dj2, dj3, dm1, dm2, dm3) && (dj1 > u16::MAX || dj2 > u16::MAX
            || dj3 > u16::MAX) ==> res == Err::<(Regge3j, ReggePhase), ReggeError>(
            ReggeError::Overflow,
        ),
        three_j_admissible(dj1, dj2, dj3, dm1, dm2, dm3) && dj1 <= u16::MAX && dj2 <= u16::MAX
            && dj3 <= u16::MAX ==> (res matches Ok((key, phase)) && ({
            let (rep, eps) = regge3j_rep(dj1, dj2, dj3, dm1, dm2, dm3);
            &&& key@.0.len() == 3 && key@.1.len() == 3
            &&& forall|i: int| 0 <= i < 3 ==> key@.0[i] as int == rep.0[i] && key@.1[i] as int
                == rep.1[i]
            &&& (phase == ReggePhase::Minus <==> eps == -1)
        })),
{
    if !admissible_3j(dj1, dj2, dj3, dm1, dm2, dm3) {
        return Err(ReggeError::NonAdmissible);
    }
    // The canonical spins are a permutation of the input spins, so checking
    // the input spins is checking the key's.
    if dj1 > 65535 || dj2 > 65535 || dj3 > 65535 {
        return Err(ReggeError::Overflow);
    }
    let ghost djs = seq![dj1 as int, dj2 as int, dj3 as int];
    let ghost dms = seq![dm1 as int, dm2 as int, dm3 as int];
    let jin: [i64; 3] = [dj1 as i64, dj2 as i64, dj3 as i64];
    let min: [i64; 3] = [dm1 as i64, dm2 as i64, dm3 as i64];
    assert(jin@.map_values(|x: i64| x as int) =~= djs);
    assert(min@.map_values(|x: i64| x as int) =~= dms);
    let (dj, dm, sign) = canonicalize3j(jin, min);
    let ghost g = best3j(djs, dms, 12);
    proof {
        lemma_best3j_is_max(djs, dms, 12);
        assert(dj@.map_values(|x: i64| x as int)[0] == dj@[0]);
        assert(dj@.map_values(|x: i64| x as int)[1] == dj@[1]);
        assert(dj@.map_values(|x: i64| x as int)[2] == dj@[2]);
        assert(dm@.map_values(|x: i64| x as int)[0] == dm@[0]);
        assert(dm@.map_values(|x: i64| x as int)[1] == dm@[1]);
        assert(dm@.map_values(|x: i64| x as int)[2] == dm@[2]);
    }
    proof {
        let p = perm3(g / 2);
        assert(0 <= p[0] < 3 && 0 <= p[1] < 3 && 0 <= p[2] < 3);
        assert(forall|k: int| #![trigger djs[k]] 0 <= k < 3 ==> -djs[k] <= dms[k] <= djs[k]);
    }
    let dju: [u16; 3] = [dj[0] as u16, dj[1] as u16, dj[2] as u16];
    let dmi: [i32; 3] = [dm[0] as i32, dm[1] as i32, dm[2] as i32];
    let phase = if sign < 0 {
        ReggePhase::Minus
    } else {
        ReggePhase::Plus
    };
    Ok((Regge3j { dj: dju, dm: dmi }, phase))
}

// ---- the checked representation surface ---------------------------------

/// An SU(2) irreducible representation, labeled by its doubled spin
/// `dj = 2j`. Every `u32` is a valid label, so construction is infallible.
#[derive(Clone, Copy, Debug, PartialEq, Eq, PartialOrd, Ord, Hash)]
pub struct Su2Irrep(u32);

impl View for Su2Irrep {
    type V = u32;

    closed spec fn view(&self) -> u32 {
        self.0
    }
}

/// The doubled spins of the channels of `dj1 ⊗ dj2`, ascending:
/// `|dj1 − dj2|, |dj1 − dj2| + 2, …, dj1 + dj2`.
pub open spec fn fusion_channels(dj1: u32, dj2: u32) -> Seq<int> {
    let lo = if dj1 >= dj2 {
        dj1 - dj2
    } else {
        dj2 - dj1
    };
    Seq::new((((dj1 + dj2 - lo) / 2) + 1) as nat, |i: int| lo + 2 * i)
}

impl Su2Irrep {
    /// Construct the irrep with doubled spin `dj = 2j`.
    pub fn new(dj: u32) -> (s: Self)
        ensures
            s@ == dj,
    {
        Su2Irrep(dj)
    }

    /// The doubled spin `dj = 2j`.
    pub fn dj(self) -> (dj: u32)
        ensures
            dj == self@,
    {
        self.0
    }

    /// The dimension `2j + 1 = dj + 1`, as `u64` so that it cannot overflow.
    pub fn dim(self) -> (d: u64)
        ensures
            d == self@ + 1,
    {
        self.0 as u64 + 1
    }

    /// The dual irrep: every SU(2) irrep is self-dual (the Frobenius–Schur
    /// phase of that self-duality is [`su2_frobenius_schur_sign`]).
    pub fn dual(self) -> (d: Self)
        ensures
            d == self,
    {
        self
    }

    /// Fusion decomposition `self ⊗ other`: the irreps `dj` in
    /// `|dj1 − dj2| ..= dj1 + dj2` in steps of 2, each once.
    ///
    /// Returns [`Su2Error::LabelOverflow`] when `dj1 + dj2` exceeds `u32`.
    pub fn fusion(self, other: Self) -> (res: Result<Su2Fusion, Su2Error>)
        ensures
            self@ + other@ > u32::MAX ==> res == Err::<Su2Fusion, Su2Error>(
                Su2Error::LabelOverflow { left: self@, right: other@ },
            ),
            self@ + other@ <= u32::MAX ==> (res matches Ok(f) && f@ == fusion_channels(
                self@,
                other@,
            )),
    {
        let hi = match self.0.checked_add(other.0) {
            Some(h) => h,
            None => {
                return Err(Su2Error::LabelOverflow { left: self.0, right: other.0 });
            },
        };
        let lo = if self.0 >= other.0 {
            self.0 - other.0
        } else {
            other.0 - self.0
        };
        let remaining = ((hi - lo) / 2) as usize + 1;
        let f = Su2Fusion { front: lo, back: hi, remaining };
        assert(f@ =~= fusion_channels(self@, other@));
        Ok(f)
    }
}

/// Allocation-free cursor over the fusion channels of two SU(2) irreps (see
/// [`Su2Irrep::fusion`]): doubled spins from `|dj1 − dj2|` to `dj1 + dj2` in
/// steps of 2, consumed from either end.
#[derive(Clone, Copy, Debug)]
pub struct Su2Fusion {
    front: u32,
    back: u32,
    remaining: usize,
}

impl Su2Fusion {
    /// The cursor's well-formedness: the channels left run from `front` to
    /// `back` in steps of 2.
    #[verifier::type_invariant]
    spec fn wf(self) -> bool {
        self.remaining == 0 || self.back == self.front + 2 * (self.remaining - 1)
    }
}

impl View for Su2Fusion {
    type V = Seq<int>;

    /// The doubled spins of the channels not yet yielded, ascending.
    closed spec fn view(&self) -> Seq<int> {
        Seq::new(self.remaining as nat, |i: int| self.front + 2 * i)
    }
}

impl Su2Fusion {
    /// The next channel from the front (ascending), or `None` when exhausted.
    pub fn next(&mut self) -> (res: Option<Su2Irrep>)
        ensures
            old(self)@.len() == 0 ==> res is None && final(self)@ == old(self)@,
            old(self)@.len() > 0 ==> (res matches Some(s) && s@ == old(self)@[0]) && final(self)@
                == old(self)@.drop_first(),
    {
        proof {
            use_type_invariant(&*self);
        }
        if self.remaining == 0 {
            return None;
        }
        let ghost before = self@;
        let dj = self.front;
        let remaining = self.remaining - 1;
        // Only advance while channels remain: on the last element `front` may
        // sit at u32::MAX, where `+= 2` would overflow.
        let front = if remaining > 0 {
            self.front + 2
        } else {
            self.front
        };
        *self = Su2Fusion { front, back: self.back, remaining };
        assert(self@ =~= before.drop_first());
        Some(Su2Irrep(dj))
    }

    /// The next channel from the back (descending), or `None` when
    /// exhausted.
    pub fn next_back(&mut self) -> (res: Option<Su2Irrep>)
        ensures
            old(self)@.len() == 0 ==> res is None && final(self)@ == old(self)@,
            old(self)@.len() > 0 ==> (res matches Some(s) && s@ == old(self)@.last())
                && final(self)@ == old(self)@.drop_last(),
    {
        proof {
            use_type_invariant(&*self);
        }
        if self.remaining == 0 {
            return None;
        }
        let ghost before = self@;
        let dj = self.back;
        let remaining = self.remaining - 1;
        // Only advance while channels remain: on the last element `back` may
        // sit at 0 (the singlet channel), where `-= 2` would underflow.
        let back = if remaining > 0 {
            self.back - 2
        } else {
            self.back
        };
        *self = Su2Fusion { front: self.front, back, remaining };
        assert(self@ =~= before.drop_last());
        Some(Su2Irrep(dj))
    }

    /// The number of channels not yet yielded.
    pub fn len(&self) -> (n: usize)
        ensures
            n == self@.len(),
    {
        self.remaining
    }
}

/// Fusion is exactly the triangle rule: `c` is a channel of `dj1 ⊗ dj2` iff
/// `(dj1, dj2, c)` is an admissible triangle.
pub proof fn lemma_fusion_is_triangle(dj1: u32, dj2: u32, c: u32)
    requires
        dj1 + dj2 <= u32::MAX,
    ensures
        fusion_channels(dj1, dj2).contains(c as int) <==> triangle(dj1, dj2, c),
{
    let ch = fusion_channels(dj1, dj2);
    let lo: int = if dj1 >= dj2 {
        dj1 - dj2
    } else {
        dj2 - dj1
    };
    if triangle(dj1, dj2, c) {
        let i = (c - lo) / 2;
        assert(ch[i] == c);
    }
    if ch.contains(c as int) {
        let i = choose|i: int| 0 <= i < ch.len() && ch[i] == c;
        assert(ch[i] == lo + 2 * i);
    }
}

// ---- the authority fingerprint ------------------------------------------

/// The convention set every SU(2) coefficient of this provider is computed
/// in, as text.
pub const SU2_AUTHORITY_FINGERPRINT: &'static str = "racah:su2-exact:model=bigrational-round-once:3j=condon-shortley:cg=condon-shortley:6j=racah-single-sum:f=tks-su2irrep:r=tks-su2irrep:fs=tks-su2irrep:epoch=1";

/// Opaque authority fingerprint of the base SU(2) provider: compare by
/// equality only. The trailing epoch changes exactly with a value-affecting
/// breaking release.
pub fn su2_authority_fingerprint() -> (b: &'static [u8])
    ensures
        b@ == SU2_AUTHORITY_FINGERPRINT.spec_bytes(),
{
    SU2_AUTHORITY_FINGERPRINT.as_bytes()
}

} // verus!

verus! {

// ---- exact recoupling values: the model --------------------------------------

/// Largest doubled spin the exact engines accept. Every factorial argument of
/// the Racah formulas then stays at most `2^20`, each prime exponent of such a
/// factorial below `2^26`, and the `u32` exponent vectors of the products the
/// engines form cannot overflow.
pub const SPIN_BOUND: u32 = 262144;

/// Largest factorial argument the exact engines form.
pub const FACT_ARG_BOUND: u64 = 1048576;

/// Exponent bound of a single factorial `n!` with `n ≤ FACT_ARG_BOUND`.
pub const FACT_EXP: u32 = 67108864;

/// All six doubled spins are within [`SPIN_BOUND`].
pub open spec fn six_j_in_range(d1: u32, d2: u32, d3: u32, d4: u32, d5: u32, d6: u32) -> bool {
    &&& d1 <= SPIN_BOUND
    &&& d2 <= SPIN_BOUND
    &&& d3 <= SPIN_BOUND
    &&& d4 <= SPIN_BOUND
    &&& d5 <= SPIN_BOUND
    &&& d6 <= SPIN_BOUND
}

/// All three doubled spins are within [`SPIN_BOUND`].
pub open spec fn three_j_in_range(d1: u32, d2: u32, d3: u32) -> bool {
    &&& d1 <= SPIN_BOUND
    &&& d2 <= SPIN_BOUND
    &&& d3 <= SPIN_BOUND
}

/// `n!` as an integer.
pub open spec fn fact(n: int) -> int {
    factorial_spec(n as nat) as int
}

/// `(-1)^k`.
pub open spec fn neg_one_pow(k: int) -> int {
    if k % 2 == 0 {
        1
    } else {
        -1
    }
}

/// The squared triangle coefficient `Δ²(a, b, c)` of doubled spins, as the
/// fraction `((a+b-c)/2)! ((a-b+c)/2)! ((-a+b+c)/2)! / ((a+b+c)/2 + 1)!`.
pub open spec fn delta_sq(a: int, b: int, c: int) -> (int, int) {
    (
        fact((a + b - c) / 2) * fact((a - b + c) / 2) * fact((-a + b + c) / 2),
        fact((a + b + c) / 2 + 1),
    )
}

/// The radical of the 6j symbol `{d1 d2 d3; d4 d5 d6}`: the product of the
/// squared triangle coefficients of its four triads.
pub open spec fn racah6j_radical(d1: int, d2: int, d3: int, d4: int, d5: int, d6: int) -> (int, int) {
    let (n1, m1) = delta_sq(d1, d2, d3);
    let (n2, m2) = delta_sq(d1, d5, d6);
    let (n3, m3) = delta_sq(d4, d2, d6);
    let (n4, m4) = delta_sq(d4, d5, d3);
    (n1 * n2 * n3 * n4, m1 * m2 * m3 * m4)
}

/// The seven sums of the Racah single-sum formula (halved): the four triad
/// sums, then the three column sums.
pub open spec fn racah6j_sums(d1: int, d2: int, d3: int, d4: int, d5: int, d6: int) -> Seq<int> {
    seq![
        (d1 + d2 + d3) / 2,
        (d1 + d5 + d6) / 2,
        (d4 + d2 + d6) / 2,
        (d4 + d5 + d3) / 2,
        (d1 + d2 + d4 + d5) / 2,
        (d2 + d3 + d5 + d6) / 2,
        (d3 + d1 + d6 + d4) / 2,
    ]
}

/// The larger of two integers.
pub open spec fn max2(a: int, b: int) -> int {
    if a >= b {
        a
    } else {
        b
    }
}

/// The smaller of two integers.
pub open spec fn min2(a: int, b: int) -> int {
    if a <= b {
        a
    } else {
        b
    }
}

/// Lower end of the Racah sum: the largest triad sum.
pub open spec fn racah6j_kmin(t: Seq<int>) -> int {
    max2(max2(t[0], t[1]), max2(t[2], t[3]))
}

/// Upper end of the Racah sum: the smallest column sum.
pub open spec fn racah6j_kmax(t: Seq<int>) -> int {
    min2(min2(t[4], t[5]), t[6])
}

/// The `k`-th Racah term
/// `(-1)^k (k+1)! / [Π_{i<4} (k - t_i)! · Π_{i≥4} (t_i - k)!]`.
pub open spec fn racah6j_term(t: Seq<int>, k: int) -> (int, int) {
    (
        neg_one_pow(k) * fact(k + 1),
        fact(k - t[0]) * fact(k - t[1]) * fact(k - t[2]) * fact(k - t[3]) * fact(t[4] - k) * fact(
            t[5] - k,
        ) * fact(t[6] - k),
    )
}

/// The Racah terms for `k` from [`racah6j_kmin`] to [`racah6j_kmax`].
pub open spec fn racah6j_terms(t: Seq<int>) -> Seq<(int, int)> {
    let lo = racah6j_kmin(t);
    let hi = racah6j_kmax(t);
    Seq::new(
        if hi >= lo {
            (hi - lo + 1) as nat
        } else {
            0
        },
        |i: int| racah6j_term(t, lo + i),
    )
}

/// The Racah sum of the 6j symbol `{d1 d2 d3; d4 d5 d6}`, as a fraction.
pub open spec fn six_j_series(d1: int, d2: int, d3: int, d4: int, d5: int, d6: int) -> (int, int) {
    series_frac(racah6j_terms(racah6j_sums(d1, d2, d3, d4, d5, d6)))
}

// ---- exact recoupling values: arithmetic facts ---------------------------------

proof fn lemma_bounded_mono(s: Seq<u32>, b: int, c: int)
    requires
        exps_bounded(s, b),
        b <= c,
    ensures
        exps_bounded(s, c),
{
    assert forall|i: int| 0 <= i < s.len() implies #[trigger] s[i] <= c by {
        assert(s[i] <= b);
    }
}

proof fn lemma_bounded_add(a: Seq<u32>, b: Seq<u32>, x: int, y: int)
    requires
        exps_bounded(a, x),
        exps_bounded(b, y),
        0 <= x,
        0 <= y,
        x + y <= u32::MAX,
    ensures
        exps_add_fits(a, b),
        exps_bounded(exps_add(a, b), x + y),
{
    assert forall|i: int| 0 <= i < max_len(a.len(), b.len()) implies exp_at(a, i) + exp_at(b, i)
        <= x + y by {
        if i < a.len() {
            assert(a[i] <= x);
        }
        if i < b.len() {
            assert(b[i] <= y);
        }
    }
    let s = exps_add(a, b);
    assert forall|i: int| 0 <= i < s.len() implies #[trigger] s[i] <= x + y by {
        assert(exp_at(a, i) + exp_at(b, i) <= x + y);
    }
}

/// Removing a common part never raises an exponent.
proof fn lemma_bounded_reduce(a: Seq<u32>, m: Seq<u32>, b: int)
    requires
        exps_bounded(a, b),
        m.len() <= a.len(),
        forall|i: int| 0 <= i < m.len() ==> m[i] <= a[i],
    ensures
        exps_bounded(trim_spec(exps_sub(a, m)), b),
{
    let d = exps_sub(a, m);
    lemma_trim_len(d);
    let t = trim_spec(d);
    assert forall|i: int| 0 <= i < t.len() implies #[trigger] t[i] <= b by {
        assert(t[i] == d[i]);
        assert(a[i] <= b);
    }
}

/// A positive factorization has a positive value.
proof fn lemma_pos_value(p: Pf)
    requires
        p.sign_spec() == 1,
    ensures
        p.value() > 0,
        p.value() == pf_value(p.powers_spec()),
{
    lemma_pf_value_pos(p.powers_spec());
}

/// `s = sn/sd` and `r = rn/rd` split `N/D` as `s² · r`, from
/// `N = a² b`, `D = c² e`, `sn/sd = a/c` and `rn/rd = b/e`.
proof fn lemma_split_value(
    sn: int,
    sd: int,
    rn: int,
    rd: int,
    a: int,
    b: int,
    c: int,
    e: int,
    n: int,
    d: int,
)
    requires
        sd > 0,
        rd > 0,
        c > 0,
        e > 0,
        frac_eq(sn, sd, a, c),
        frac_eq(rn, rd, b, e),
        n == a * a * b,
        d == c * c * e,
    ensures
        frac_eq(sn * sn * rn, sd * sd * rd, n, d),
{
    assert(sn * sn * rn * (c * c * e) == (sn * c) * (sn * c) * (rn * e)) by (nonlinear_arith);
    assert((sn * c) * (sn * c) * (rn * e) == (a * sd) * (a * sd) * (b * rd));
    assert((a * sd) * (a * sd) * (b * rd) == (a * a * b) * (sd * sd * rd)) by (nonlinear_arith);
}

// ---- exact recoupling values: the engines --------------------------------------

/// Prime factorization of `Δ²(a, b, c)` as `(numerator, denominator)`.
fn delta_sq_pf(a: u32, b: u32, c: u32) -> (res: (Pf, Pf))
    requires
        triangle(a, b, c),
        a <= SPIN_BOUND,
        b <= SPIN_BOUND,
        c <= SPIN_BOUND,
    ensures
        res.0.wf(),
        res.1.wf(),
        res.0.sign_spec() == 1,
        res.1.sign_spec() == 1,
        res.0.value() == delta_sq(a as int, b as int, c as int).0,
        res.1.value() == delta_sq(a as int, b as int, c as int).1,
        exps_bounded(res.0.powers_spec(), 3 * FACT_EXP),
        exps_bounded(res.1.powers_spec(), FACT_EXP as int),
        support_le(res.0.powers_spec(), FACT_ARG_BOUND as int),
        support_le(res.1.powers_spec(), FACT_ARG_BOUND as int),
{
    let (a, b, c) = (a as u64, b as u64, c as u64);
    let t1 = (a + b - c) / 2;
    let t2 = (a + c - b) / 2;
    let t3 = (b + c - a) / 2;
    let t4 = (a + b + c) / 2 + 1;
    let mut num = pf_factorial(t1);
    proof {
        lemma_support_mono(num.powers_spec(), num.powers_spec(), FACT_ARG_BOUND as int);
        lemma_bounded_mono(num.powers_spec(), 64 * t1, FACT_EXP as int);
        lemma_pos_value(num);
    }
    mul_factorial(&mut num, t2);
    proof {
        lemma_bounded_mono(num.powers_spec(), FACT_EXP + 64 * t2, 2 * FACT_EXP);
    }
    mul_factorial(&mut num, t3);
    proof {
        lemma_bounded_mono(num.powers_spec(), 2 * FACT_EXP + 64 * t3, 3 * FACT_EXP);
    }
    let den = pf_factorial(t4);
    proof {
        lemma_bounded_mono(den.powers_spec(), 64 * t4, FACT_EXP as int);
        lemma_pos_value(den);
        assert(-(a as int) + b + c == b + c - a);
        assert((a as int) - b + c == a + c - b);
    }
    (num, den)
}

/// Split the positive fraction `num/den` as `s² · r`: the perfect-square part
/// becomes the rational prefactor `s`, the square-free rest the radicand `r`,
/// each reduced before it is multiplied out.
fn split_radical(num: &Pf, den: &Pf) -> (res: (Ratio<BigInt>, Ratio<BigInt>))
    requires
        num.wf(),
        den.wf(),
        num.sign_spec() == 1,
        den.sign_spec() == 1,
        support_le(num.powers_spec(), u64::MAX as int),
        support_le(den.powers_spec(), u64::MAX as int),
    ensures
        ratio_wf(res.0),
        ratio_wf(res.1),
        ratio_numer(res.0) > 0,
        ratio_numer(res.1) > 0,
        frac_eq(
            ratio_numer(res.0) * ratio_numer(res.0) * ratio_numer(res.1),
            ratio_denom(res.0) * ratio_denom(res.0) * ratio_denom(res.1),
            num.value(),
            den.value(),
        ),
{
    let (mut snum, mut rnum) = num.splitsquare();
    let (mut sden, mut rden) = den.splitsquare();
    let ghost (a0, b0, c0, e0) = (snum.value(), rnum.value(), sden.value(), rden.value());
    proof {
        lemma_pos_value(snum);
        lemma_pos_value(rnum);
        lemma_pos_value(sden);
        lemma_pos_value(rden);
        lemma_support_mono(num.powers_spec(), snum.powers_spec(), u64::MAX as int);
        lemma_support_mono(num.powers_spec(), rnum.powers_spec(), u64::MAX as int);
        lemma_support_mono(den.powers_spec(), sden.powers_spec(), u64::MAX as int);
        lemma_support_mono(den.powers_spec(), rden.powers_spec(), u64::MAX as int);
    }
    let ghost (ps, pr, qs, qr) = (snum.powers_spec(), rnum.powers_spec(), sden.powers_spec(), rden.powers_spec());
    Pf::divgcd(&mut snum, &mut sden);
    Pf::divgcd(&mut rnum, &mut rden);
    proof {
        lemma_support_mono(ps, snum.powers_spec(), u64::MAX as int);
        lemma_support_mono(pr, rnum.powers_spec(), u64::MAX as int);
        lemma_support_mono(qs, sden.powers_spec(), u64::MAX as int);
        lemma_support_mono(qr, rden.powers_spec(), u64::MAX as int);
        lemma_pos_value(snum);
        lemma_pos_value(rnum);
        lemma_pos_value(sden);
        lemma_pos_value(rden);
    }
    let s = ratio_new(snum.to_bigint(), sden.to_bigint());
    let r = ratio_new(rnum.to_bigint(), rden.to_bigint());
    proof {
        let (sn, sd, rn, rd) = (ratio_numer(s), ratio_denom(s), ratio_numer(r), ratio_denom(r));
        lemma_frac_trans(sn, sd, snum.value(), sden.value(), a0, c0);
        lemma_frac_trans(rn, rd, rnum.value(), rden.value(), b0, e0);
        lemma_frac_pos(sn, sd, a0, c0);
        lemma_frac_pos(rn, rd, b0, e0);
        assert(num.value() == a0 * a0 * b0);
        assert(den.value() == c0 * c0 * e0);
        lemma_split_value(sn, sd, rn, rd, a0, b0, c0, e0, num.value(), den.value());
    }
    (s, r)
}


/// The `u64` entries of a sequence as integers.
pub open spec fn seq_int(s: Seq<u64>) -> Seq<int> {
    s.map_values(|x: u64| x as int)
}

/// Positive factors give a positive product of seven.
proof fn lemma_prod7_pos(a: int, b: int, c: int, d: int, e: int, f: int, g: int)
    requires
        a > 0,
        b > 0,
        c > 0,
        d > 0,
        e > 0,
        f > 0,
        g > 0,
    ensures
        a * b * c * d * e * f * g > 0,
{
    assert(a * b > 0) by (nonlinear_arith)
        requires
            a > 0,
            b > 0,
    ;
    assert(a * b * c > 0) by (nonlinear_arith)
        requires
            a * b > 0,
            c > 0,
    ;
    assert(a * b * c * d > 0) by (nonlinear_arith)
        requires
            a * b * c > 0,
            d > 0,
    ;
    assert(a * b * c * d * e > 0) by (nonlinear_arith)
        requires
            a * b * c * d > 0,
            e > 0,
    ;
    assert(a * b * c * d * e * f > 0) by (nonlinear_arith)
        requires
            a * b * c * d * e > 0,
            f > 0,
    ;
    assert(a * b * c * d * e * f * g > 0) by (nonlinear_arith)
        requires
            a * b * c * d * e * f > 0,
            g > 0,
    ;
}

/// Multiply `acc` by `n!`, with the exponent bound grown by one factorial.
fn mul_fact_step(acc: &mut Pf, n: u64, j: u32)
    requires
        old(acc).wf(),
        n <= FACT_ARG_BOUND,
        1 <= j <= 62,
        exps_bounded(old(acc).powers_spec(), j * FACT_EXP),
        support_le(old(acc).powers_spec(), FACT_ARG_BOUND as int),
    ensures
        final(acc).wf(),
        final(acc).sign_spec() == old(acc).sign_spec(),
        final(acc).value() == old(acc).value() * fact(n as int),
        exps_bounded(final(acc).powers_spec(), (j + 1) * FACT_EXP),
        support_le(final(acc).powers_spec(), FACT_ARG_BOUND as int),
{
    proof {
        lemma_bounded_mono(old(acc).powers_spec(), j * FACT_EXP, u32::MAX - 64 * n);
    }
    mul_factorial(acc, n);
    proof {
        lemma_bounded_mono(acc.powers_spec(), j * FACT_EXP + 64 * n, (j + 1) * FACT_EXP);
    }
}

/// The `k`-th Racah term of the 6j sum, factorized and reduced.
fn racah6j_term_pf(t: [u64; 7], k: u64) -> (res: (Pf, Pf))
    requires
        forall|i: int| 0 <= i < 7 ==> #[trigger] t@[i] <= 524288,
        t@[0] <= k,
        t@[1] <= k,
        t@[2] <= k,
        t@[3] <= k,
        k <= t@[4],
        k <= t@[5],
        k <= t@[6],
    ensures
        series_term_ok(res),
        res.1.sign_spec() == 1,
        res.1.value() > 0,
        frac_eq(
            res.0.value(),
            res.1.value(),
            racah6j_term(seq_int(t@), k as int).0,
            racah6j_term(seq_int(t@), k as int).1,
        ),
{
    let ghost ts = seq_int(t@);
    let mut nump = pf_factorial(k + 1);
    proof {
        lemma_pos_value(nump);
        lemma_support_mono(nump.powers_spec(), nump.powers_spec(), FACT_ARG_BOUND as int);
        lemma_bounded_mono(nump.powers_spec(), 64 * (k + 1), FACT_EXP as int);
    }
    if k % 2 != 0 {
        nump = nump.neg();
    }
    let mut denp = pf_factorial(k - t[0]);
    proof {
        lemma_pos_value(denp);
        lemma_support_mono(denp.powers_spec(), denp.powers_spec(), FACT_ARG_BOUND as int);
        lemma_bounded_mono(denp.powers_spec(), 64 * (k - t[0]), FACT_EXP as int);
    }
    mul_fact_step(&mut denp, k - t[1], 1);
    mul_fact_step(&mut denp, k - t[2], 2);
    mul_fact_step(&mut denp, k - t[3], 3);
    mul_fact_step(&mut denp, t[4] - k, 4);
    mul_fact_step(&mut denp, t[5] - k, 5);
    mul_fact_step(&mut denp, t[6] - k, 6);
    let ghost (a0, b0) = (nump, denp);
    proof {
        assert(ts[0] == t@[0] && ts[1] == t@[1] && ts[2] == t@[2] && ts[3] == t@[3]);
        assert(ts[4] == t@[4] && ts[5] == t@[5] && ts[6] == t@[6]);
        assert(nump.value() == neg_one_pow(k as int) * fact(k + 1));
        assert(denp.value() == racah6j_term(ts, k as int).1);
        lemma_pos_value(denp);
    }
    Pf::divgcd(&mut nump, &mut denp);
    proof {
        let m = exps_min(a0.powers_spec(), b0.powers_spec());
        lemma_bounded_reduce(a0.powers_spec(), m, FACT_EXP as int);
        lemma_bounded_reduce(b0.powers_spec(), m, 7 * FACT_EXP);
        lemma_bounded_mono(nump.powers_spec(), FACT_EXP as int, HALF_EXP as int);
        lemma_bounded_mono(denp.powers_spec(), 7 * FACT_EXP, HALF_EXP as int);
        lemma_support_mono(a0.powers_spec(), nump.powers_spec(), FACT_ARG_BOUND as int);
        lemma_support_mono(b0.powers_spec(), denp.powers_spec(), FACT_ARG_BOUND as int);
        lemma_support_mono(nump.powers_spec(), nump.powers_spec(), u64::MAX as int);
        lemma_support_mono(denp.powers_spec(), denp.powers_spec(), u64::MAX as int);
        lemma_pos_value(denp);
    }
    (nump, denp)
}

/// Every Racah term of the 6j sum has a positive denominator.
proof fn lemma_racah6j_dens_pos(ts: Seq<int>)
    requires
        ts.len() == 7,
    ensures
        forall|j: int| 0 <= j < racah6j_terms(ts).len() ==> (#[trigger] racah6j_terms(ts)[j]).1 > 0,
{
    let rt = racah6j_terms(ts);
    let kmin = racah6j_kmin(ts);
    assert forall|j: int| 0 <= j < rt.len() implies (#[trigger] rt[j]).1 > 0 by {
        let kk = kmin + j;
        lemma_factorial_pos((kk - ts[0]) as nat);
        lemma_factorial_pos((kk - ts[1]) as nat);
        lemma_factorial_pos((kk - ts[2]) as nat);
        lemma_factorial_pos((kk - ts[3]) as nat);
        lemma_factorial_pos((ts[4] - kk) as nat);
        lemma_factorial_pos((ts[5] - kk) as nat);
        lemma_factorial_pos((ts[6] - kk) as nat);
        lemma_prod7_pos(
            fact(kk - ts[0]),
            fact(kk - ts[1]),
            fact(kk - ts[2]),
            fact(kk - ts[3]),
            fact(ts[4] - kk),
            fact(ts[5] - kk),
            fact(ts[6] - kk),
        );
    }
}

/// The Racah single sum of the 6j symbol `{dj1 dj2 dj3; dj4 dj5 dj6}` as an
/// exact rational.
#[verifier::rlimit(40)]
fn racah6j_sum(dj1: u32, dj2: u32, dj3: u32, dj4: u32, dj5: u32, dj6: u32) -> (ser: Ratio<BigInt>)
    requires
        dj1 <= SPIN_BOUND,
        dj2 <= SPIN_BOUND,
        dj3 <= SPIN_BOUND,
        dj4 <= SPIN_BOUND,
        dj5 <= SPIN_BOUND,
        dj6 <= SPIN_BOUND,
    ensures
        ratio_wf(ser),
        six_j_series(dj1 as int, dj2 as int, dj3 as int, dj4 as int, dj5 as int, dj6 as int).1 > 0,
        frac_eq(
            ratio_numer(ser),
            ratio_denom(ser),
            six_j_series(dj1 as int, dj2 as int, dj3 as int, dj4 as int, dj5 as int, dj6 as int).0,
            six_j_series(dj1 as int, dj2 as int, dj3 as int, dj4 as int, dj5 as int, dj6 as int).1,
        ),
{
    let (j1, j2, j3, j4, j5, j6) = (
        dj1 as u64,
        dj2 as u64,
        dj3 as u64,
        dj4 as u64,
        dj5 as u64,
        dj6 as u64,
    );
    let t: [u64; 7] = [
        (j1 + j2 + j3) / 2,
        (j1 + j5 + j6) / 2,
        (j4 + j2 + j6) / 2,
        (j4 + j5 + j3) / 2,
        (j1 + j2 + j4 + j5) / 2,
        (j2 + j3 + j5 + j6) / 2,
        (j3 + j1 + j6 + j4) / 2,
    ];
    let ghost ts = racah6j_sums(dj1 as int, dj2 as int, dj3 as int, dj4 as int, dj5 as int, dj6 as int);
    proof {
        assert(seq_int(t@) =~= ts);
    }
    let a = if t[0] >= t[1] {
        t[0]
    } else {
        t[1]
    };
    let b = if t[2] >= t[3] {
        t[2]
    } else {
        t[3]
    };
    let kmin = if a >= b {
        a
    } else {
        b
    };
    let c = if t[4] <= t[5] {
        t[4]
    } else {
        t[5]
    };
    let kmax = if c <= t[6] {
        c
    } else {
        t[6]
    };
    let ghost rt = racah6j_terms(ts);
    assert(kmin == racah6j_kmin(ts) && kmax == racah6j_kmax(ts));
    let mut terms: Vec<(Pf, Pf)> = Vec::new();
    let mut k = kmin;
    while k <= kmax
        invariant
            seq_int(t@) == ts,
            forall|i: int| 0 <= i < 7 ==> #[trigger] t@[i] <= 524288,
            kmin == racah6j_kmin(ts),
            kmax == racah6j_kmax(ts),
            kmin <= k,
            k <= kmax + 1 || k == kmin,
            terms@.len() == k - kmin,
            forall|j: int|
                0 <= j < terms@.len() ==> {
                    &&& series_term_ok(#[trigger] terms@[j])
                    &&& terms@[j].1.value() > 0
                    &&& frac_eq(
                        terms@[j].0.value(),
                        terms@[j].1.value(),
                        racah6j_term(ts, kmin + j).0,
                        racah6j_term(ts, kmin + j).1,
                    )
                },
        decreases kmax + 1 - k,
    {
        let term = racah6j_term_pf(t, k);
        terms.push(term);
        k = k + 1;
    }
    proof {
        let tv = term_values(terms@);
        assert(tv.len() == rt.len());
        lemma_racah6j_dens_pos(ts);
        assert forall|j: int| 0 <= j < tv.len() implies (#[trigger] tv[j]).1 != 0 by {
            assert(terms@[j].1.value() > 0);
        }
        assert forall|j: int| 0 <= j < tv.len() implies frac_eq(
            tv[j].0,
            tv[j].1,
            #[trigger] rt[j].0,
            rt[j].1,
        ) by {
            assert(terms@[j].1.value() > 0);
        }
        lemma_series_congruent(tv, rt, tv.len());
        lemma_series_den_pos(rt, rt.len());
    }
    let ser = sum_series(terms);
    proof {
        let tv = term_values(terms@);
        let (x, y) = series_frac(tv);
        let (p, q) = series_frac(rt);
        lemma_frac_trans(ratio_numer(ser), ratio_denom(ser), x, y, p, q);
    }
    ser
}


/// Multiply two positive factorizations whose exponents are bounded by `i`
/// and `j` factorials.
fn mul_step(acc: &mut Pf, other: &Pf, i: u32, j: u32)
    requires
        old(acc).wf(),
        other.wf(),
        old(acc).sign_spec() == 1,
        other.sign_spec() == 1,
        i + j <= 63,
        exps_bounded(old(acc).powers_spec(), i * FACT_EXP),
        exps_bounded(other.powers_spec(), j * FACT_EXP),
        support_le(old(acc).powers_spec(), FACT_ARG_BOUND as int),
        support_le(other.powers_spec(), FACT_ARG_BOUND as int),
    ensures
        final(acc).wf(),
        final(acc).sign_spec() == 1,
        final(acc).value() == old(acc).value() * other.value(),
        exps_bounded(final(acc).powers_spec(), (i + j) * FACT_EXP),
        support_le(final(acc).powers_spec(), FACT_ARG_BOUND as int),
{
    proof {
        lemma_bounded_add(acc.powers_spec(), other.powers_spec(), i * FACT_EXP, j * FACT_EXP);
    }
    let ghost a = acc.powers_spec();
    acc.mul_assign(other);
    proof {
        if a.len() >= other.powers_spec().len() {
            lemma_support_mono(a, acc.powers_spec(), FACT_ARG_BOUND as int);
        } else {
            lemma_support_mono(other.powers_spec(), acc.powers_spec(), FACT_ARG_BOUND as int);
        }
    }
}

/// Squaring both sides of a fraction equality.
proof fn lemma_frac_square(a: int, b: int, c: int, d: int)
    requires
        frac_eq(a, b, c, d),
    ensures
        frac_eq(a * a, b * b, c * c, d * d),
{
    assert((a * a) * (d * d) == (a * d) * (a * d)) by (nonlinear_arith);
    assert((c * c) * (b * b) == (c * b) * (c * b)) by (nonlinear_arith);
}

/// Multiplying two fraction equalities.
proof fn lemma_frac_mul(a: int, b: int, c: int, d: int, e: int, f: int, g: int, h: int)
    requires
        frac_eq(a, b, c, d),
        frac_eq(e, f, g, h),
    ensures
        frac_eq(a * e, b * f, c * g, d * h),
{
    assert((a * e) * (d * h) == (a * d) * (e * h)) by (nonlinear_arith);
    assert((c * g) * (b * f) == (c * b) * (g * f)) by (nonlinear_arith);
}

/// `m = s · ser` with `s² r = R` and `ser = S`: then `m² r = S² R`, and `m`
/// has the sign of `S`.
proof fn lemma_radical_value(
    mn: int,
    md: int,
    sn: int,
    sd: int,
    sern: int,
    serd: int,
    rn: int,
    rd: int,
    s0: int,
    s1: int,
    r0: int,
    r1: int,
)
    requires
        md > 0,
        sd > 0,
        serd > 0,
        s1 > 0,
        rd > 0,
        sn > 0,
        frac_eq(mn, md, sn * sern, sd * serd),
        frac_eq(sern, serd, s0, s1),
        frac_eq(sn * sn * rn, sd * sd * rd, r0, r1),
    ensures
        frac_eq(mn * mn * rn, md * md * rd, s0 * s0 * r0, s1 * s1 * r1),
        sgn(mn) == sgn(s0),
{
    lemma_frac_square(mn, md, sn * sern, sd * serd);
    let (a, b) = ((sn * sern) * (sn * sern), (sd * serd) * (sd * serd));
    lemma_frac_mul(mn * mn, md * md, a, b, rn, rd, rn, rd);
    assert((sn * sern) * (sn * sern) * rn == (sern * sern) * (sn * sn * rn)) by (nonlinear_arith);
    assert((sd * serd) * (sd * serd) * rd == (serd * serd) * (sd * sd * rd)) by (nonlinear_arith);
    lemma_frac_square(sern, serd, s0, s1);
    lemma_frac_mul(sern * sern, serd * serd, s0 * s0, s1 * s1, sn * sn * rn, sd * sd * rd, r0, r1);
    assert((serd * serd) * (sd * sd * rd) != 0) by (nonlinear_arith)
        requires
            serd > 0,
            sd > 0,
            rd > 0,
    ;
    lemma_frac_trans(
        mn * mn * rn,
        md * md * rd,
        (sern * sern) * (sn * sn * rn),
        (serd * serd) * (sd * sd * rd),
        s0 * s0 * r0,
        s1 * s1 * r1,
    );
    assert(sd * serd > 0) by (nonlinear_arith)
        requires
            sd > 0,
            serd > 0,
    ;
    lemma_frac_sign(mn, md, sn * sern, sd * serd);
    lemma_frac_sign(sern, serd, s0, s1);
    assert((sn * sern > 0) == (sern > 0) && (sn * sern < 0) == (sern < 0)) by (nonlinear_arith)
        requires
            sn > 0,
    ;
}

/// The exact value `sign · sqrt(radicand)` of the 6j symbol: the sign of
/// the Racah sum `S`, and the radicand `S² · R` with `R` the product of the
/// four squared triangle coefficients.
pub open spec fn six_j_value(d1: u32, d2: u32, d3: u32, d4: u32, d5: u32, d6: u32) -> (
    int,
    int,
    int,
) {
    let (s0, s1) = six_j_series(d1 as int, d2 as int, d3 as int, d4 as int, d5 as int, d6 as int);
    let (r0, r1) = racah6j_radical(d1 as int, d2 as int, d3 as int, d4 as int, d5 as int, d6 as int);
    (sgn(s0), s0 * s0 * r0, s1 * s1 * r1)
}

/// `v` is the 6j symbol `{d1 d2 d3; d4 d5 d6}`: exact zero off the four
/// triads, [`six_j_value`] on them.
pub open spec fn is_wigner_6j(v: SignedSqrtRational, d1: u32, d2: u32, d3: u32, d4: u32, d5: u32, d6: u32) -> bool {
    &&& v.wf()
    &&& if six_j_admissible(d1, d2, d3, d4, d5, d6) {
        v.denotes(
            six_j_value(d1, d2, d3, d4, d5, d6).0,
            six_j_value(d1, d2, d3, d4, d5, d6).1,
            six_j_value(d1, d2, d3, d4, d5, d6).2,
        )
    } else {
        v.sign_spec() == 0
    }
}

/// Wigner 6j symbol `{dj1 dj2 dj3; dj4 dj5 dj6}` of doubled spins, exactly.
///
/// Exact zero unless all four triads `(1,2,3), (1,5,6), (4,2,6), (4,5,3)` are
/// admissible. Otherwise the Racah single sum times the square root of the
/// product of the four squared triangle coefficients; that product is kept in
/// exponent space and split into a square prefactor and a square-free
/// radicand before any big integer is formed.
pub fn wigner_6j(dj1: u32, dj2: u32, dj3: u32, dj4: u32, dj5: u32, dj6: u32) -> (v: SignedSqrtRational)
    requires
        six_j_admissible(dj1, dj2, dj3, dj4, dj5, dj6) ==> six_j_in_range(dj1, dj2, dj3, dj4, dj5, dj6),
    ensures
        is_wigner_6j(v, dj1, dj2, dj3, dj4, dj5, dj6),
{
    if !(triangle_ok(dj1, dj2, dj3) && triangle_ok(dj1, dj5, dj6) && triangle_ok(dj4, dj2, dj6)
        && triangle_ok(dj4, dj5, dj3)) {
        return SignedSqrtRational::zero();
    }
    let (n1, e1) = delta_sq_pf(dj1, dj2, dj3);
    let (n2, e2) = delta_sq_pf(dj1, dj5, dj6);
    let (n3, e3) = delta_sq_pf(dj4, dj2, dj6);
    let (n4, e4) = delta_sq_pf(dj4, dj5, dj3);
    let mut num = n1;
    mul_step(&mut num, &n2, 3, 3);
    mul_step(&mut num, &n3, 6, 3);
    mul_step(&mut num, &n4, 9, 3);
    let mut den = e1;
    mul_step(&mut den, &e2, 1, 1);
    mul_step(&mut den, &e3, 2, 1);
    mul_step(&mut den, &e4, 3, 1);
    proof {
        lemma_support_mono(num.powers_spec(), num.powers_spec(), u64::MAX as int);
        lemma_support_mono(den.powers_spec(), den.powers_spec(), u64::MAX as int);
    }
    let (s, r) = split_radical(&num, &den);
    let series = racah6j_sum(dj1, dj2, dj3, dj4, dj5, dj6);
    let m = ratio_mul(&s, &series);
    let v = SignedSqrtRational::from_prefactor_radical(m, r);
    proof {
        let (s0, s1) = six_j_series(dj1 as int, dj2 as int, dj3 as int, dj4 as int, dj5 as int, dj6 as int);
        let (r0, r1) = racah6j_radical(dj1 as int, dj2 as int, dj3 as int, dj4 as int, dj5 as int, dj6 as int);
        assert(num.value() == r0);
        assert(den.value() == r1);
        lemma_pos_value(den);
        assert(s1 * s1 * r1 > 0) by (nonlinear_arith)
            requires
                s1 > 0,
                r1 > 0,
        ;
        lemma_radical_value(
            ratio_numer(m),
            ratio_denom(m),
            ratio_numer(s),
            ratio_denom(s),
            ratio_numer(series),
            ratio_denom(series),
            ratio_numer(r),
            ratio_denom(r),
            s0,
            s1,
            r0,
            r1,
        );
        lemma_denotes(v, m, r, s0, s1, r0, r1);
    }
    v
}

/// What [`SignedSqrtRational::from_prefactor_radical`] built from `m` and a
/// positive `r` denotes, when `m² r = S² R` and `sgn m = sgn S`.
proof fn lemma_denotes(
    v: SignedSqrtRational,
    m: Ratio<BigInt>,
    r: Ratio<BigInt>,
    s0: int,
    s1: int,
    r0: int,
    r1: int,
)
    requires
        v.wf(),
        ratio_wf(m),
        ratio_wf(r),
        ratio_numer(r) > 0,
        s1 * s1 * r1 != 0,
        ratio_numer(m) == 0 ==> v.sign_spec() == 0,
        ratio_numer(m) != 0 ==> v.denotes(
            sgn(ratio_numer(m)),
            ratio_numer(m) * ratio_numer(m) * ratio_numer(r),
            ratio_denom(m) * ratio_denom(m) * ratio_denom(r),
        ),
        frac_eq(
            ratio_numer(m) * ratio_numer(m) * ratio_numer(r),
            ratio_denom(m) * ratio_denom(m) * ratio_denom(r),
            s0 * s0 * r0,
            s1 * s1 * r1,
        ),
        sgn(ratio_numer(m)) == sgn(s0),
    ensures
        v.denotes(sgn(s0), s0 * s0 * r0, s1 * s1 * r1),
{
    let (mn, md, rn, rd) = (ratio_numer(m), ratio_denom(m), ratio_numer(r), ratio_denom(r));
    if mn == 0 {
        assert(s0 == 0);
        assert(v.rad_num() == 0);
        assert(0 * (s1 * s1 * r1) == (s0 * s0 * r0) * v.rad_den()) by (nonlinear_arith)
            requires
                s0 == 0,
        ;
    } else {
        assert(md * md * rd != 0) by (nonlinear_arith)
            requires
                md > 0,
                rd > 0,
        ;
        lemma_frac_trans(v.rad_num(), v.rad_den(), mn * mn * rn, md * md * rd, s0 * s0 * r0, s1 * s1 * r1);
    }
}


// ---- the 3j symbol --------------------------------------------------------------

/// The radical of the 3j symbol `(d1 d2 d3; m1 m2 m3)`:
/// `Δ²(d1, d2, d3) · Π_i ((d_i+m_i)/2)! ((d_i-m_i)/2)!`.
pub open spec fn racah3j_radical(d1: int, d2: int, d3: int, m1: int, m2: int, m3: int) -> (int, int) {
    let (n, m) = delta_sq(d1, d2, d3);
    (
        n * fact((d1 + m1) / 2) * fact((d1 - m1) / 2) * fact((d2 + m2) / 2) * fact((d2 - m2) / 2)
            * fact((d3 + m3) / 2) * fact((d3 - m3) / 2),
        m,
    )
}

/// The five offsets of the 3j sum: `(d1+d2-d3)/2`, `(d1-m1)/2`, `(d2+m2)/2`,
/// `(d3-d2+m1)/2`, `(d3-d1-m2)/2`.
pub open spec fn racah3j_params(d1: int, d2: int, d3: int, m1: int, m2: int) -> Seq<int> {
    seq![
        (d1 + d2 - d3) / 2,
        (d1 - m1) / 2,
        (d2 + m2) / 2,
        (d3 - d2 + m1) / 2,
        (d3 - d1 - m2) / 2,
    ]
}

/// Lower end of the 3j sum.
pub open spec fn racah3j_kmin(p: Seq<int>) -> int {
    max2(0, max2(-p[3], -p[4]))
}

/// Upper end of the 3j sum.
pub open spec fn racah3j_kmax(p: Seq<int>) -> int {
    min2(min2(p[0], p[1]), p[2])
}

/// The `k`-th term `(-1)^k / [k! (p0-k)! (p1-k)! (p2-k)! (k+p3)! (k+p4)!]`.
pub open spec fn racah3j_term(p: Seq<int>, k: int) -> (int, int) {
    (
        neg_one_pow(k),
        fact(k) * fact(p[0] - k) * fact(p[1] - k) * fact(p[2] - k) * fact(k + p[3]) * fact(k + p[4]),
    )
}

/// The terms of the 3j sum for `k` from [`racah3j_kmin`] to [`racah3j_kmax`].
pub open spec fn racah3j_terms(p: Seq<int>) -> Seq<(int, int)> {
    let lo = racah3j_kmin(p);
    let hi = racah3j_kmax(p);
    Seq::new(
        if hi >= lo {
            (hi - lo + 1) as nat
        } else {
            0
        },
        |i: int| racah3j_term(p, lo + i),
    )
}

/// The alternating sum of the 3j symbol, as a fraction.
pub open spec fn three_j_series(d1: int, d2: int, d3: int, m1: int, m2: int) -> (int, int) {
    series_frac(racah3j_terms(racah3j_params(d1, d2, d3, m1, m2)))
}

/// The exact value of the 3j symbol: the Condon–Shortley phase
/// `(-1)^((d1-d2-m3)/2)` times the sign of the sum `S`, and the radicand
/// `S² · R` with `R` the radical.
pub open spec fn three_j_value(d1: int, d2: int, d3: int, m1: int, m2: int, m3: int) -> (
    int,
    int,
    int,
) {
    let (s0, s1) = three_j_series(d1, d2, d3, m1, m2);
    let (r0, r1) = racah3j_radical(d1, d2, d3, m1, m2, m3);
    (sgn(neg_one_pow((d1 - d2 - m3) / 2) * s0), s0 * s0 * r0, s1 * s1 * r1)
}

/// `v` is the 3j symbol `(d1 d2 d3; m1 m2 m3)`: exact zero unless
/// admissible, [`three_j_value`] otherwise.
pub open spec fn is_wigner_3j(v: SignedSqrtRational, d1: u32, d2: u32, d3: u32, m1: i32, m2: i32, m3: i32) -> bool {
    &&& v.wf()
    &&& if three_j_admissible(d1, d2, d3, m1, m2, m3) {
        v.denotes(
            three_j_value(d1 as int, d2 as int, d3 as int, m1 as int, m2 as int, m3 as int).0,
            three_j_value(d1 as int, d2 as int, d3 as int, m1 as int, m2 as int, m3 as int).1,
            three_j_value(d1 as int, d2 as int, d3 as int, m1 as int, m2 as int, m3 as int).2,
        )
    } else {
        v.sign_spec() == 0
    }
}

/// The `i64` entries of a sequence as integers.
pub open spec fn seq_i64(s: Seq<i64>) -> Seq<int> {
    s.map_values(|x: i64| x as int)
}

/// Half of an even integer, exactly.
fn half_even(x: i64) -> (h: i64)
    requires
        x % 2 == 0,
        -4194304 <= x <= 4194304,
    ensures
        h * 2 == x,
        h == x / 2,
{
    if x >= 0 {
        ((x as u64) / 2) as i64
    } else {
        let y = ((-x) as u64) / 2;
        -(y as i64)
    }
}

/// The `k`-th term of the 3j sum, factorized.
fn racah3j_term_pf(p: [i64; 5], k: i64) -> (res: (Pf, Pf))
    requires
        forall|i: int| 0 <= i < 5 ==> -524288 <= #[trigger] p@[i] <= 524288,
        0 <= k,
        k <= p@[0],
        k <= p@[1],
        k <= p@[2],
        0 <= k + p@[3],
        0 <= k + p@[4],
    ensures
        series_term_ok(res),
        res.1.sign_spec() == 1,
        res.1.value() > 0,
        res.0.value() == racah3j_term(seq_i64(p@), k as int).0,
        res.1.value() == racah3j_term(seq_i64(p@), k as int).1,
{
    let ghost ps = seq_i64(p@);
    let nump = if k % 2 == 0 {
        Pf::one()
    } else {
        Pf::one().neg()
    };
    proof {
        lemma_pf_value_pos(nump.powers_spec());
        assert(nump.powers_spec().len() == 0);
        assert(pf_value(nump.powers_spec()) == 1);
        assert(exps_bounded(nump.powers_spec(), HALF_EXP as int));
    }
    let mut denp = pf_factorial(k as u64);
    proof {
        lemma_support_mono(denp.powers_spec(), denp.powers_spec(), FACT_ARG_BOUND as int);
        lemma_bounded_mono(denp.powers_spec(), 64 * k, FACT_EXP as int);
        lemma_pos_value(denp);
    }
    mul_fact_step(&mut denp, (p[0] - k) as u64, 1);
    mul_fact_step(&mut denp, (p[1] - k) as u64, 2);
    mul_fact_step(&mut denp, (p[2] - k) as u64, 3);
    mul_fact_step(&mut denp, (k + p[3]) as u64, 4);
    mul_fact_step(&mut denp, (k + p[4]) as u64, 5);
    proof {
        assert(ps[0] == p@[0] && ps[1] == p@[1] && ps[2] == p@[2] && ps[3] == p@[3] && ps[4] == p@[4]);
        lemma_pos_value(denp);
        lemma_bounded_mono(denp.powers_spec(), 6 * FACT_EXP, HALF_EXP as int);
        lemma_support_mono(denp.powers_spec(), denp.powers_spec(), u64::MAX as int);
        assert(support_le(nump.powers_spec(), u64::MAX as int));
    }
    (nump, denp)
}

/// Every term of the 3j sum has a positive denominator.
proof fn lemma_racah3j_dens_pos(ps: Seq<int>)
    requires
        ps.len() == 5,
    ensures
        forall|j: int| 0 <= j < racah3j_terms(ps).len() ==> (#[trigger] racah3j_terms(ps)[j]).1 > 0,
{
    let rt = racah3j_terms(ps);
    let kmin = racah3j_kmin(ps);
    assert forall|j: int| 0 <= j < rt.len() implies (#[trigger] rt[j]).1 > 0 by {
        let kk = kmin + j;
        lemma_factorial_pos(kk as nat);
        lemma_factorial_pos((ps[0] - kk) as nat);
        lemma_factorial_pos((ps[1] - kk) as nat);
        lemma_factorial_pos((ps[2] - kk) as nat);
        lemma_factorial_pos((kk + ps[3]) as nat);
        lemma_factorial_pos((kk + ps[4]) as nat);
        lemma_prod7_pos(
            fact(kk),
            fact(ps[0] - kk),
            fact(ps[1] - kk),
            fact(ps[2] - kk),
            fact(kk + ps[3]),
            fact(kk + ps[4]),
            1,
        );
        assert(fact(kk) * fact(ps[0] - kk) * fact(ps[1] - kk) * fact(ps[2] - kk) * fact(kk + ps[3])
            * fact(kk + ps[4]) * 1 == rt[j].1);
    }
}

/// The alternating sum of the 3j symbol as an exact rational.
#[verifier::rlimit(40)]
fn racah3j_sum(dj1: u32, dj2: u32, dj3: u32, dm1: i32, dm2: i32, dm3: i32) -> (ser: Ratio<BigInt>)
    requires
        three_j_admissible(dj1, dj2, dj3, dm1, dm2, dm3),
        dj1 <= SPIN_BOUND,
        dj2 <= SPIN_BOUND,
        dj3 <= SPIN_BOUND,
    ensures
        ratio_wf(ser),
        three_j_series(dj1 as int, dj2 as int, dj3 as int, dm1 as int, dm2 as int).1 > 0,
        frac_eq(
            ratio_numer(ser),
            ratio_denom(ser),
            three_j_series(dj1 as int, dj2 as int, dj3 as int, dm1 as int, dm2 as int).0,
            three_j_series(dj1 as int, dj2 as int, dj3 as int, dm1 as int, dm2 as int).1,
        ),
{
    let (j1, j2, j3) = (dj1 as i64, dj2 as i64, dj3 as i64);
    let (m1, m2) = (dm1 as i64, dm2 as i64);
    let p: [i64; 5] = [
        half_even(j1 + j2 - j3),
        half_even(j1 - m1),
        half_even(j2 + m2),
        half_even(j3 - j2 + m1),
        half_even(j3 - j1 - m2),
    ];
    let ghost ps = racah3j_params(dj1 as int, dj2 as int, dj3 as int, dm1 as int, dm2 as int);
    proof {
        assert(seq_i64(p@) =~= ps);
    }
    let a = if -p[3] >= -p[4] {
        -p[3]
    } else {
        -p[4]
    };
    let kmin = if 0 >= a {
        0
    } else {
        a
    };
    let c = if p[0] <= p[1] {
        p[0]
    } else {
        p[1]
    };
    let kmax = if c <= p[2] {
        c
    } else {
        p[2]
    };
    let ghost rt = racah3j_terms(ps);
    assert(kmin == racah3j_kmin(ps) && kmax == racah3j_kmax(ps));
    let mut terms: Vec<(Pf, Pf)> = Vec::new();
    let mut k = kmin;
    while k <= kmax
        invariant
            seq_i64(p@) == ps,
            forall|i: int| 0 <= i < 5 ==> -524288 <= #[trigger] p@[i] <= 524288,
            kmin == racah3j_kmin(ps),
            kmax == racah3j_kmax(ps),
            kmin <= k,
            k <= kmax + 1 || k == kmin,
            terms@.len() == k - kmin,
            forall|j: int|
                0 <= j < terms@.len() ==> {
                    &&& series_term_ok(#[trigger] terms@[j])
                    &&& terms@[j].1.value() > 0
                    &&& terms@[j].0.value() == racah3j_term(ps, kmin + j).0
                    &&& terms@[j].1.value() == racah3j_term(ps, kmin + j).1
                },
        decreases kmax + 1 - k,
    {
        let term = racah3j_term_pf(p, k);
        terms.push(term);
        k = k + 1;
    }
    proof {
        let tv = term_values(terms@);
        assert(tv.len() == rt.len());
        lemma_racah3j_dens_pos(ps);
        assert forall|j: int| 0 <= j < tv.len() implies (#[trigger] tv[j]).1 != 0 by {
            assert(terms@[j].1.value() > 0);
        }
        assert(tv =~= rt);
        lemma_series_den_pos(rt, rt.len());
    }
    sum_series(terms)
}

/// Wigner 3j symbol `(dj1 dj2 dj3; dm1 dm2 dm3)` of doubled spins and
/// projections, exactly, with the Condon–Shortley phase.
///
/// Exact zero unless the labels are admissible: the triangle `(1,2,3)`,
/// `|dm_i| ≤ dj_i` with `dj_i + dm_i` even, and `dm1 + dm2 + dm3 = 0`.
#[verifier::rlimit(40)]
pub fn wigner_3j(dj1: u32, dj2: u32, dj3: u32, dm1: i32, dm2: i32, dm3: i32) -> (v: SignedSqrtRational)
    requires
        three_j_admissible(dj1, dj2, dj3, dm1, dm2, dm3) ==> three_j_in_range(dj1, dj2, dj3),
    ensures
        is_wigner_3j(v, dj1, dj2, dj3, dm1, dm2, dm3),
{
    if !admissible_3j(dj1, dj2, dj3, dm1, dm2, dm3) {
        return SignedSqrtRational::zero();
    }
    let (j1, j2, j3) = (dj1 as i64, dj2 as i64, dj3 as i64);
    let (m1, m2, m3) = (dm1 as i64, dm2 as i64, dm3 as i64);
    let (mut num, den) = delta_sq_pf(dj1, dj2, dj3);
    mul_fact_step(&mut num, half_even(j1 + m1) as u64, 3);
    mul_fact_step(&mut num, half_even(j1 - m1) as u64, 4);
    mul_fact_step(&mut num, half_even(j2 + m2) as u64, 5);
    mul_fact_step(&mut num, half_even(j2 - m2) as u64, 6);
    mul_fact_step(&mut num, half_even(j3 + m3) as u64, 7);
    mul_fact_step(&mut num, half_even(j3 - m3) as u64, 8);
    proof {
        lemma_support_mono(num.powers_spec(), num.powers_spec(), u64::MAX as int);
        lemma_support_mono(den.powers_spec(), den.powers_spec(), u64::MAX as int);
    }
    let (s, r) = split_radical(&num, &den);
    let series = racah3j_sum(dj1, dj2, dj3, dm1, dm2, dm3);
    let m = ratio_mul(&s, &series);
    let neg = phase_is_negative(half_even(j1 - j2 - m3));
    let value = if neg {
        ratio_neg(m)
    } else {
        m
    };
    let v = SignedSqrtRational::from_prefactor_radical(value, r);
    proof {
        let (s0, s1) = three_j_series(dj1 as int, dj2 as int, dj3 as int, dm1 as int, dm2 as int);
        let (r0, r1) = racah3j_radical(dj1 as int, dj2 as int, dj3 as int, dm1 as int, dm2 as int, dm3 as int);
        let ph = neg_one_pow((j1 - j2 - m3) / 2);
        assert(num.value() == r0);
        assert(den.value() == r1);
        lemma_pos_value(den);
        assert(neg <==> ph == -1);
        lemma_phase_radical(
            ratio_numer(m),
            ratio_numer(value),
            ratio_denom(m),
            ratio_numer(s),
            ratio_denom(s),
            ratio_numer(series),
            ratio_denom(series),
            ratio_numer(r),
            ratio_denom(r),
            s0,
            s1,
            r0,
            r1,
            ph,
        );
        lemma_denotes(v, value, r, ph * s0, s1, r0, r1);
        assert((ph * s0) * (ph * s0) * r0 == s0 * s0 * r0) by (nonlinear_arith)
            requires
                ph == 1 || ph == -1,
        ;
    }
    v
}

/// [`lemma_radical_value`] with the sum multiplied by a phase `ph = ±1`.
proof fn lemma_phase_radical(
    mn: int,
    vn: int,
    md: int,
    sn: int,
    sd: int,
    sern: int,
    serd: int,
    rn: int,
    rd: int,
    s0: int,
    s1: int,
    r0: int,
    r1: int,
    ph: int,
)
    requires
        ph == 1 || ph == -1,
        vn == ph * mn,
        md > 0,
        sd > 0,
        serd > 0,
        s1 > 0,
        rd > 0,
        sn > 0,
        r1 > 0,
        frac_eq(mn, md, sn * sern, sd * serd),
        frac_eq(sern, serd, s0, s1),
        frac_eq(sn * sn * rn, sd * sd * rd, r0, r1),
    ensures
        frac_eq(vn * vn * rn, md * md * rd, (ph * s0) * (ph * s0) * r0, s1 * s1 * r1),
        sgn(vn) == sgn(ph * s0),
        s1 * s1 * r1 != 0,
{
    assert(vn * (sd * serd) == (sn * (ph * sern)) * md) by (nonlinear_arith)
        requires
            vn == ph * mn,
            mn * (sd * serd) == (sn * sern) * md,
    ;
    assert((ph * sern) * s1 == (ph * s0) * serd) by (nonlinear_arith)
        requires
            sern * s1 == s0 * serd,
    ;
    lemma_radical_value(vn, md, sn, sd, ph * sern, serd, rn, rd, ph * s0, s1, r0, r1);
    assert(s1 * s1 * r1 > 0) by (nonlinear_arith)
        requires
            s1 > 0,
            r1 > 0,
    ;
}


// ---- Clebsch–Gordan, F-symbol, checked surface -----------------------------------

/// `v = w · sqrt(n)` for a non-zero `w` equal to `sqrt(a/b)` in magnitude:
/// the radicand of `v` is `a n / b`.
proof fn lemma_times_sqrt(w: SignedSqrtRational, v: SignedSqrtRational, a: int, b: int, n: int)
    requires
        w.wf(),
        w.sign_spec() != 0,
        v.denotes(w.sign_spec() as int, w.rad_num() * n, w.rad_den()),
        frac_eq(w.rad_num(), w.rad_den(), a, b),
    ensures
        frac_eq(v.rad_num(), v.rad_den(), a * n, b),
{
    assert(w.rad_num() * n * b == a * n * w.rad_den()) by (nonlinear_arith)
        requires
            w.rad_num() * b == a * w.rad_den(),
    ;
    lemma_frac_trans(v.rad_num(), v.rad_den(), w.rad_num() * n, w.rad_den(), a * n, b);
}

/// A zero `w` equal to `sqrt(a/b)` in magnitude has `a = 0`.
proof fn lemma_zero_radicand(w: SignedSqrtRational, a: int, b: int)
    requires
        w.wf(),
        w.sign_spec() == 0,
        frac_eq(w.rad_num(), w.rad_den(), a, b),
    ensures
        a == 0,
{
    assert(a == 0) by (nonlinear_arith)
        requires
            w.rad_num() == 0,
            w.rad_den() > 0,
            w.rad_num() * b == a * w.rad_den(),
    ;
}

/// The projection `-dm` a CG coefficient hands its 3j (`i32::MIN` stays
/// `i32::MIN`, which lies on no ladder).
pub open spec fn neg_proj(dm: i32) -> i32 {
    if dm == i32::MIN {
        i32::MIN
    } else {
        (-dm) as i32
    }
}

/// `v` is the Clebsch–Gordan coefficient `<dj1 dm1, dj2 dm2 | dj3 dm3>`:
/// `(-1)^((dj2-dj1-dm3)/2) · sqrt(dj3+1) · (dj1 dj2 dj3; dm1 dm2 -dm3)`, exact
/// zero where that 3j is not admissible.
pub open spec fn is_clebsch_gordan(
    v: SignedSqrtRational,
    dj1: u32,
    dm1: i32,
    dj2: u32,
    dm2: i32,
    dj3: u32,
    dm3: i32,
) -> bool {
    &&& v.wf()
    &&& if three_j_admissible(dj1, dj2, dj3, dm1, dm2, neg_proj(dm3)) {
        let w = three_j_value(dj1 as int, dj2 as int, dj3 as int, dm1 as int, dm2 as int, -dm3);
        v.denotes(neg_one_pow((dj2 - dj1 - dm3) / 2) * w.0, w.1 * (dj3 + 1), w.2)
    } else {
        v.sign_spec() == 0
    }
}

/// Clebsch–Gordan coefficient `<dj1 dm1, dj2 dm2 | dj3 dm3>` (doubled spins),
/// composed exactly from the 3j symbol `(dj1 dj2 dj3; dm1 dm2 -dm3)`: the
/// dimension factor `sqrt(dj3 + 1)` folds into the radicand, the
/// Condon–Shortley phase into the sign.
#[verifier::spinoff_prover]
#[verifier::rlimit(30)]
pub fn clebsch_gordan(dj1: u32, dm1: i32, dj2: u32, dm2: i32, dj3: u32, dm3: i32) -> (v:
    SignedSqrtRational)
    requires
        three_j_admissible(dj1, dj2, dj3, dm1, dm2, neg_proj(dm3)) ==> three_j_in_range(
            dj1,
            dj2,
            dj3,
        ),
    ensures
        is_clebsch_gordan(v, dj1, dm1, dj2, dm2, dj3, dm3),
{
    let ndm3 = if dm3 == i32::MIN {
        i32::MIN
    } else {
        -dm3
    };
    let w3 = wigner_3j(dj1, dj2, dj3, dm1, dm2, ndm3);
    let ghost adm = three_j_admissible(dj1, dj2, dj3, dm1, dm2, neg_proj(dm3));
    let ghost w = three_j_value(dj1 as int, dj2 as int, dj3 as int, dm1 as int, dm2 as int, -dm3);
    if w3.sign() == 0 {
        let z = SignedSqrtRational::zero();
        proof {
            if adm {
                assert(ndm3 == -dm3);
                lemma_zero_radicand(w3, w.1, w.2);
                assert(w.1 * (dj3 + 1) == 0);
                assert(z.rad_num() * w.2 == w.1 * (dj3 + 1) * z.rad_den());
            }
        }
        return z;
    }
    assert(adm);
    assert(ndm3 == -dm3);
    let n = (dj3 as u64) + 1;
    let ghost w3g = w3;
    let cg = w3.times_sqrt_int(n);
    let x = (dj2 as i64) - (dj1 as i64) - (dm3 as i64);
    proof {
        assert(x % 2 == 0);
        lemma_times_sqrt(w3g, cg, w.1, w.2, n as int);
    }
    let neg = phase_is_negative(half_even(x));
    proof {
        assert(w3g.denotes(w.0, w.1, w.2));
        assert(cg.sign_spec() == w.0);
        assert(x == dj2 - dj1 - dm3);
        assert(neg == (neg_one_pow((dj2 - dj1 - dm3) / 2) == -1));
    }
    if neg {
        cg.neg_value()
    } else {
        cg
    }
}

/// `v` is the F-symbol `F^{d1 d2 d3}_{d4}[d5, d6]`:
/// `(-1)^((d1+d2+d3+d4)/2) · sqrt((d5+1)(d6+1)) · {d1 d2 d5; d3 d4 d6}`, exact
/// zero where that 6j is not admissible.
pub open spec fn is_f_symbol(v: SignedSqrtRational, d1: u32, d2: u32, d3: u32, d4: u32, d5: u32, d6: u32) -> bool {
    &&& v.wf()
    &&& if six_j_admissible(d1, d2, d5, d3, d4, d6) {
        let w = six_j_value(d1, d2, d5, d3, d4, d6);
        v.denotes(neg_one_pow((d1 + d2 + d3 + d4) / 2) * w.0, w.1 * (d5 + 1) * (d6 + 1), w.2)
    } else {
        v.sign_spec() == 0
    }
}

/// Exact SU(2) F-symbol `F^{dj1 dj2 dj3}_{dj4}[dj5, dj6]`, composed exactly
/// from the 6j symbol `{dj1 dj2 dj5; dj3 dj4 dj6}`: the dimension factors
/// fold into the radicand, the phase `(-1)^{j1+j2+j3+j4}` into the sign.
#[verifier::rlimit(30)]
pub fn f_symbol_exact(dj1: u32, dj2: u32, dj3: u32, dj4: u32, dj5: u32, dj6: u32) -> (v:
    SignedSqrtRational)
    requires
        six_j_admissible(dj1, dj2, dj5, dj3, dj4, dj6) ==> six_j_in_range(
            dj1,
            dj2,
            dj5,
            dj3,
            dj4,
            dj6,
        ),
    ensures
        is_f_symbol(v, dj1, dj2, dj3, dj4, dj5, dj6),
{
    let w6 = wigner_6j(dj1, dj2, dj5, dj3, dj4, dj6);
    let ghost adm = six_j_admissible(dj1, dj2, dj5, dj3, dj4, dj6);
    let ghost w = six_j_value(dj1, dj2, dj5, dj3, dj4, dj6);
    if w6.sign() == 0 {
        let z = SignedSqrtRational::zero();
        proof {
            if adm {
                lemma_zero_radicand(w6, w.1, w.2);
                assert(w.1 * (dj5 + 1) * (dj6 + 1) == 0) by (nonlinear_arith)
                    requires
                        w.1 == 0,
                ;
                assert(z.rad_num() * w.2 == w.1 * (dj5 + 1) * (dj6 + 1) * z.rad_den());
            }
        }
        return z;
    }
    assert(adm);
    let ghost w6g = w6;
    let v1 = w6.times_sqrt_int((dj5 as u64) + 1);
    let ghost v1g = v1;
    proof {
        lemma_times_sqrt(w6g, v1g, w.1, w.2, dj5 + 1);
    }
    let v2 = v1.times_sqrt_int((dj6 as u64) + 1);
    proof {
        lemma_times_sqrt(v1g, v2, w.1 * (dj5 + 1), w.2, dj6 + 1);
    }
    let sum = (dj1 as u64) + (dj2 as u64) + (dj3 as u64) + (dj4 as u64);
    let neg = phase_is_negative((sum / 2) as i64);
    proof {
        assert(v2.sign_spec() == w.0);
        assert(neg == (neg_one_pow((dj1 + dj2 + dj3 + dj4) / 2) == -1));
    }
    if neg {
        v2.neg_value()
    } else {
        v2
    }
}

impl ReggePhase {
    /// Apply the compensation to a representative value: `Plus` keeps it,
    /// `Minus` negates it.
    pub fn apply(self, v: SignedSqrtRational) -> (w: SignedSqrtRational)
        requires
            v.wf(),
        ensures
            w.wf(),
            w.rad_num() == v.rad_num(),
            w.rad_den() == v.rad_den(),
            self == ReggePhase::Plus ==> w.sign_spec() == v.sign_spec(),
            self == ReggePhase::Minus ==> w.sign_spec() == -v.sign_spec(),
    {
        match self {
            ReggePhase::Plus => v,
            ReggePhase::Minus => v.neg_value(),
        }
    }
}

/// The first of three doubled spins beyond [`SPIN_BOUND`], if any.
fn beyond3(d1: u32, d2: u32, d3: u32) -> (res: Option<u32>)
    ensures
        match res {
            None => three_j_in_range(d1, d2, d3),
            Some(d) => d > SPIN_BOUND && (d == d1 || d == d2 || d == d3),
        },
{
    if d1 > SPIN_BOUND {
        Some(d1)
    } else if d2 > SPIN_BOUND {
        Some(d2)
    } else if d3 > SPIN_BOUND {
        Some(d3)
    } else {
        None
    }
}

/// The first of six doubled spins beyond [`SPIN_BOUND`], if any.
fn beyond6(d1: u32, d2: u32, d3: u32, d4: u32, d5: u32, d6: u32) -> (res: Option<u32>)
    ensures
        match res {
            None => six_j_in_range(d1, d2, d3, d4, d5, d6),
            Some(d) => d > SPIN_BOUND && (d == d1 || d == d2 || d == d3 || d == d4 || d == d5 || d
                == d6),
        },
{
    match beyond3(d1, d2, d3) {
        Some(d) => Some(d),
        None => beyond3(d4, d5, d6),
    }
}

/// Checked [`wigner_6j`]: `Ok(value)` for an admissible label set (the value
/// may be an accidental zero), else [`Su2Error::NotAdmissible`] naming the
/// first violated triad; an admissible set with a doubled spin beyond
/// [`SPIN_BOUND`] is [`Su2Error::SpinBeyondBound`].
pub fn wigner_6j_checked(dj1: u32, dj2: u32, dj3: u32, dj4: u32, dj5: u32, dj6: u32) -> (res:
    Result<SignedSqrtRational, Su2Error>)
    ensures
        res is Ok <==> six_j_admissible(dj1, dj2, dj3, dj4, dj5, dj6) && six_j_in_range(
            dj1,
            dj2,
            dj3,
            dj4,
            dj5,
            dj6,
        ),
        res matches Ok(v) ==> is_wigner_6j(v, dj1, dj2, dj3, dj4, dj5, dj6),
        !six_j_admissible(dj1, dj2, dj3, dj4, dj5, dj6) ==> (res matches Err(e) && six_j_check(
            dj1,
            dj2,
            dj3,
            dj4,
            dj5,
            dj6,
        ) matches Err(x) && e == Su2Error::NotAdmissible(x)),
        six_j_admissible(dj1, dj2, dj3, dj4, dj5, dj6) && !six_j_in_range(dj1, dj2, dj3, dj4, dj5, dj6)
            ==> (res matches Err(Su2Error::SpinBeyondBound { dj }) && dj > SPIN_BOUND && (dj == dj1
            || dj == dj2 || dj == dj3 || dj == dj4 || dj == dj5 || dj == dj6)),
{
    match check_6j_admissible(dj1, dj2, dj3, dj4, dj5, dj6) {
        Err(v) => Err(Su2Error::NotAdmissible(v)),
        Ok(()) => match beyond6(dj1, dj2, dj3, dj4, dj5, dj6) {
            Some(d) => Err(Su2Error::SpinBeyondBound { dj: d }),
            None => Ok(wigner_6j(dj1, dj2, dj3, dj4, dj5, dj6)),
        },
    }
}

/// Checked [`wigner_3j`]: `Ok(value)` for an admissible label set, else
/// [`Su2Error::NotAdmissible`] naming the first violated rule (m-sum,
/// projection, triangle); an admissible set with a doubled spin beyond
/// [`SPIN_BOUND`] is [`Su2Error::SpinBeyondBound`].
pub fn wigner_3j_checked(dj1: u32, dj2: u32, dj3: u32, dm1: i32, dm2: i32, dm3: i32) -> (res:
    Result<SignedSqrtRational, Su2Error>)
    ensures
        res is Ok <==> three_j_admissible(dj1, dj2, dj3, dm1, dm2, dm3) && three_j_in_range(
            dj1,
            dj2,
            dj3,
        ),
        res matches Ok(v) ==> is_wigner_3j(v, dj1, dj2, dj3, dm1, dm2, dm3),
        !three_j_admissible(dj1, dj2, dj3, dm1, dm2, dm3) ==> (res matches Err(e) && three_j_check(
            dj1,
            dj2,
            dj3,
            dm1,
            dm2,
            dm3,
        ) matches Err(x) && e == Su2Error::NotAdmissible(x)),
        three_j_admissible(dj1, dj2, dj3, dm1, dm2, dm3) && !three_j_in_range(dj1, dj2, dj3) ==> (res
            matches Err(Su2Error::SpinBeyondBound { dj }) && dj > SPIN_BOUND && (dj == dj1 || dj
            == dj2 || dj == dj3)),
{
    match check_3j_admissible(dj1, dj2, dj3, dm1, dm2, dm3) {
        Err(v) => Err(Su2Error::NotAdmissible(v)),
        Ok(()) => match beyond3(dj1, dj2, dj3) {
            Some(d) => Err(Su2Error::SpinBeyondBound { dj: d }),
            None => Ok(wigner_3j(dj1, dj2, dj3, dm1, dm2, dm3)),
        },
    }
}

/// Checked [`clebsch_gordan`]: `Ok(value)` when the 3j
/// `(dj1 dj2 dj3; dm1 dm2 -dm3)` is admissible, else
/// [`Su2Error::NotAdmissible`] naming its first violated rule; an admissible
/// set with a doubled spin beyond [`SPIN_BOUND`] is
/// [`Su2Error::SpinBeyondBound`].
pub fn clebsch_gordan_checked(dj1: u32, dm1: i32, dj2: u32, dm2: i32, dj3: u32, dm3: i32) -> (res:
    Result<SignedSqrtRational, Su2Error>)
    ensures
        res is Ok <==> three_j_admissible(dj1, dj2, dj3, dm1, dm2, neg_proj(dm3)) && three_j_in_range(
            dj1,
            dj2,
            dj3,
        ),
        res matches Ok(v) ==> is_clebsch_gordan(v, dj1, dm1, dj2, dm2, dj3, dm3),
        !three_j_admissible(dj1, dj2, dj3, dm1, dm2, neg_proj(dm3)) ==> (res matches Err(e)
            && three_j_check(dj1, dj2, dj3, dm1, dm2, neg_proj(dm3)) matches Err(x) && e
            == Su2Error::NotAdmissible(x)),
        three_j_admissible(dj1, dj2, dj3, dm1, dm2, neg_proj(dm3)) && !three_j_in_range(dj1, dj2, dj3)
            ==> (res matches Err(Su2Error::SpinBeyondBound { dj }) && dj > SPIN_BOUND && (dj == dj1
            || dj == dj2 || dj == dj3)),
{
    let ndm3 = if dm3 == i32::MIN {
        i32::MIN
    } else {
        -dm3
    };
    match check_3j_admissible(dj1, dj2, dj3, dm1, dm2, ndm3) {
        Err(v) => Err(Su2Error::NotAdmissible(v)),
        Ok(()) => match beyond3(dj1, dj2, dj3) {
            Some(d) => Err(Su2Error::SpinBeyondBound { dj: d }),
            None => Ok(clebsch_gordan(dj1, dm1, dj2, dm2, dj3, dm3)),
        },
    }
}

/// Checked [`f_symbol_exact`]: `Ok(value)` when the 6j
/// `{dj1 dj2 dj5; dj3 dj4 dj6}` is admissible, else
/// [`Su2Error::NotAdmissible`] naming its first violated triad; an admissible
/// set with a doubled spin beyond [`SPIN_BOUND`] is
/// [`Su2Error::SpinBeyondBound`].
pub fn f_symbol_exact_checked(dj1: u32, dj2: u32, dj3: u32, dj4: u32, dj5: u32, dj6: u32) -> (res:
    Result<SignedSqrtRational, Su2Error>)
    ensures
        res is Ok <==> six_j_admissible(dj1, dj2, dj5, dj3, dj4, dj6) && six_j_in_range(
            dj1,
            dj2,
            dj5,
            dj3,
            dj4,
            dj6,
        ),
        res matches Ok(v) ==> is_f_symbol(v, dj1, dj2, dj3, dj4, dj5, dj6),
        !six_j_admissible(dj1, dj2, dj5, dj3, dj4, dj6) ==> (res matches Err(e) && six_j_check(
            dj1,
            dj2,
            dj5,
            dj3,
            dj4,
            dj6,
        ) matches Err(x) && e == Su2Error::NotAdmissible(x)),
        six_j_admissible(dj1, dj2, dj5, dj3, dj4, dj6) && !six_j_in_range(dj1, dj2, dj5, dj3, dj4, dj6)
            ==> (res matches Err(Su2Error::SpinBeyondBound { dj }) && dj > SPIN_BOUND && (dj == dj1
            || dj == dj2 || dj == dj3 || dj == dj4 || dj == dj5 || dj == dj6)),
{
    match check_6j_admissible(dj1, dj2, dj5, dj3, dj4, dj6) {
        Err(v) => Err(Su2Error::NotAdmissible(v)),
        Ok(()) => match beyond6(dj1, dj2, dj5, dj3, dj4, dj6) {
            Some(d) => Err(Su2Error::SpinBeyondBound { dj: d }),
            None => Ok(f_symbol_exact(dj1, dj2, dj3, dj4, dj5, dj6)),
        },
    }
}


// ---- symmetries of the 6j value ------------------------------------------------

/// The radical of the 6j symbol over its Racah sums `t` (triads `t[0..4]`,
/// columns `t[4..7]`): `Π_{i,j} (t[4+j] - t[i])! / Π_i (t[i] + 1)!`.
pub open spec fn racah6j_radical_sums(t: Seq<int>) -> (int, int) {
    (
        racah6j_triad_factor(t, 0) * racah6j_triad_factor(t, 1) * racah6j_triad_factor(t, 2)
            * racah6j_triad_factor(t, 3),
        fact(t[0] + 1) * fact(t[1] + 1) * fact(t[2] + 1) * fact(t[3] + 1),
    )
}

/// `Π_j (t[4+j] - t[i])!` for the triad `i`.
pub open spec fn racah6j_triad_factor(t: Seq<int>, i: int) -> int {
    fact(t[4] - t[i]) * fact(t[5] - t[i]) * fact(t[6] - t[i])
}

/// `t` with entries `i` and `j` exchanged.
pub open spec fn swap_at(t: Seq<int>, i: int, j: int) -> Seq<int> {
    t.update(i, t[j]).update(j, t[i])
}

/// `(a1 b1 c1)(a2 b2 c2) = (a1 a2)(b1 b2)(c1 c2)`.
proof fn lemma_pair_regroup(a1: int, b1: int, c1: int, a2: int, b2: int, c2: int)
    ensures
        (a1 * b1 * c1) * (a2 * b2 * c2) == (a1 * a2) * (b1 * b2) * (c1 * c2),
{
    assert((a1 * b1 * c1) * (a2 * b2 * c2) == (a1 * a2) * (b1 * b2) * (c1 * c2)) by (nonlinear_arith);
}

/// Twelve factors, grouped by triad on one side and by column on the other.
proof fn lemma_regroup12(
    x11: int,
    x12: int,
    x13: int,
    x14: int,
    x21: int,
    x22: int,
    x23: int,
    x24: int,
    x31: int,
    x32: int,
    x33: int,
    x34: int,
)
    ensures
        (x14 * x33 * x22) * (x13 * x34 * x21) * (x12 * x31 * x24) * (x11 * x32 * x23) == (x11 * x21
            * x31) * (x12 * x22 * x32) * (x13 * x23 * x33) * (x14 * x24 * x34),
{
    let (n1, n2, n3, n4) = (x14 * x33 * x22, x13 * x34 * x21, x12 * x31 * x24, x11 * x32 * x23);
    let (p1, p2, p3, p4) = (x11 * x21 * x31, x12 * x22 * x32, x13 * x23 * x33, x14 * x24 * x34);
    assert(n1 * n2 * n3 * n4 == (n1 * n2) * (n3 * n4)) by (nonlinear_arith);
    assert(p1 * p2 * p3 * p4 == (p1 * p2) * (p3 * p4)) by (nonlinear_arith);
    lemma_pair_regroup(x14, x33, x22, x13, x34, x21);
    lemma_pair_regroup(x12, x31, x24, x11, x32, x23);
    lemma_pair_regroup(x14 * x13, x33 * x34, x22 * x21, x12 * x11, x31 * x32, x24 * x23);
    lemma_pair_regroup(x11, x21, x31, x12, x22, x32);
    lemma_pair_regroup(x13, x23, x33, x14, x24, x34);
    lemma_pair_regroup(x11 * x12, x21 * x22, x31 * x32, x13 * x14, x23 * x24, x33 * x34);
    let (r1, r2, r3) = ((x11 * x12) * (x13 * x14), (x21 * x22) * (x23 * x24), (x31 * x32) * (x33 * x34));
    assert((x14 * x13) * (x12 * x11) == (x11 * x12) * (x13 * x14)) by (nonlinear_arith);
    assert((x33 * x34) * (x31 * x32) == (x31 * x32) * (x33 * x34)) by (nonlinear_arith);
    assert((x22 * x21) * (x24 * x23) == (x21 * x22) * (x23 * x24)) by (nonlinear_arith);
    assert(r1 * r3 * r2 == r1 * r2 * r3) by (nonlinear_arith);
}

/// The 6j radical is the product over all triad–column pairs.
proof fn lemma_radical_by_sums(d1: u32, d2: u32, d3: u32, d4: u32, d5: u32, d6: u32)
    requires
        six_j_admissible(d1, d2, d3, d4, d5, d6),
    ensures
        racah6j_radical(d1 as int, d2 as int, d3 as int, d4 as int, d5 as int, d6 as int)
            == racah6j_radical_sums(racah6j_sums(d1 as int, d2 as int, d3 as int, d4 as int, d5 as int, d6 as int)),
{
    let t = racah6j_sums(d1 as int, d2 as int, d3 as int, d4 as int, d5 as int, d6 as int);
    let (a1, a2, a3, a4, a5, a6) = (d1 as int, d2 as int, d3 as int, d4 as int, d5 as int, d6 as int);
    assert(t[4] - t[3] == (a1 + a2 - a3) / 2);
    assert(t[6] - t[2] == (a1 - a2 + a3) / 2);
    assert(t[5] - t[1] == (-a1 + a2 + a3) / 2);
    assert(t[4] - t[2] == (a1 + a5 - a6) / 2);
    assert(t[6] - t[3] == (a1 - a5 + a6) / 2);
    assert(t[5] - t[0] == (-a1 + a5 + a6) / 2);
    assert(t[4] - t[1] == (a4 + a2 - a6) / 2);
    assert(t[6] - t[0] == (a4 - a2 + a6) / 2);
    assert(t[5] - t[3] == (-a4 + a2 + a6) / 2);
    assert(t[4] - t[0] == (a4 + a5 - a3) / 2);
    assert(t[6] - t[1] == (a4 - a5 + a3) / 2);
    assert(t[5] - t[2] == (-a4 + a5 + a3) / 2);
    lemma_regroup12(
        fact(t[4] - t[0]),
        fact(t[4] - t[1]),
        fact(t[4] - t[2]),
        fact(t[4] - t[3]),
        fact(t[5] - t[0]),
        fact(t[5] - t[1]),
        fact(t[5] - t[2]),
        fact(t[5] - t[3]),
        fact(t[6] - t[0]),
        fact(t[6] - t[1]),
        fact(t[6] - t[2]),
        fact(t[6] - t[3]),
    );
}

/// Exchanging two triad sums keeps the Racah terms and the radical.
proof fn lemma_swap_triads(t: Seq<int>, i: int, j: int)
    requires
        t.len() == 7,
        0 <= i < j < 4,
    ensures
        racah6j_terms(swap_at(t, i, j)) == racah6j_terms(t),
        racah6j_radical_sums(swap_at(t, i, j)) == racah6j_radical_sums(t),
{
    let u = swap_at(t, i, j);
    assert(racah6j_kmin(u) == racah6j_kmin(t));
    assert(racah6j_kmax(u) == racah6j_kmax(t));
    let lo = racah6j_kmin(t);
    assert forall|m: int| 0 <= m < racah6j_terms(t).len() implies #[trigger] racah6j_terms(u)[m]
        == racah6j_terms(t)[m] by {
        let k = lo + m;
        let (a, b, c, d) = (fact(k - t[0]), fact(k - t[1]), fact(k - t[2]), fact(k - t[3]));
        let (e, f, g) = (fact(t[4] - k), fact(t[5] - k), fact(t[6] - k));
        assert(a * b * c * d * e * f * g == b * a * c * d * e * f * g) by (nonlinear_arith);
        assert(a * b * c * d * e * f * g == c * b * a * d * e * f * g) by (nonlinear_arith);
        assert(a * b * c * d * e * f * g == d * b * c * a * e * f * g) by (nonlinear_arith);
        assert(a * b * c * d * e * f * g == a * c * b * d * e * f * g) by (nonlinear_arith);
        assert(a * b * c * d * e * f * g == a * d * c * b * e * f * g) by (nonlinear_arith);
        assert(a * b * c * d * e * f * g == a * b * d * c * e * f * g) by (nonlinear_arith);
    }
    assert(racah6j_terms(u) =~= racah6j_terms(t));
    let (p0, p1, p2, p3) = (
        racah6j_triad_factor(t, 0),
        racah6j_triad_factor(t, 1),
        racah6j_triad_factor(t, 2),
        racah6j_triad_factor(t, 3),
    );
    let (q0, q1, q2, q3) = (fact(t[0] + 1), fact(t[1] + 1), fact(t[2] + 1), fact(t[3] + 1));
    assert(p0 * p1 * p2 * p3 == p1 * p0 * p2 * p3) by (nonlinear_arith);
    assert(p0 * p1 * p2 * p3 == p2 * p1 * p0 * p3) by (nonlinear_arith);
    assert(p0 * p1 * p2 * p3 == p3 * p1 * p2 * p0) by (nonlinear_arith);
    assert(p0 * p1 * p2 * p3 == p0 * p2 * p1 * p3) by (nonlinear_arith);
    assert(p0 * p1 * p2 * p3 == p0 * p3 * p2 * p1) by (nonlinear_arith);
    assert(p0 * p1 * p2 * p3 == p0 * p1 * p3 * p2) by (nonlinear_arith);
    assert(q0 * q1 * q2 * q3 == q1 * q0 * q2 * q3) by (nonlinear_arith);
    assert(q0 * q1 * q2 * q3 == q2 * q1 * q0 * q3) by (nonlinear_arith);
    assert(q0 * q1 * q2 * q3 == q3 * q1 * q2 * q0) by (nonlinear_arith);
    assert(q0 * q1 * q2 * q3 == q0 * q2 * q1 * q3) by (nonlinear_arith);
    assert(q0 * q1 * q2 * q3 == q0 * q3 * q2 * q1) by (nonlinear_arith);
    assert(q0 * q1 * q2 * q3 == q0 * q1 * q3 * q2) by (nonlinear_arith);
}

/// Exchanging two column sums keeps the Racah terms and the radical.
proof fn lemma_swap_columns(t: Seq<int>, j: int, l: int)
    requires
        t.len() == 7,
        4 <= j < l < 7,
    ensures
        racah6j_terms(swap_at(t, j, l)) == racah6j_terms(t),
        racah6j_radical_sums(swap_at(t, j, l)) == racah6j_radical_sums(t),
{
    let u = swap_at(t, j, l);
    assert(racah6j_kmin(u) == racah6j_kmin(t));
    assert(racah6j_kmax(u) == racah6j_kmax(t));
    let lo = racah6j_kmin(t);
    assert forall|m: int| 0 <= m < racah6j_terms(t).len() implies #[trigger] racah6j_terms(u)[m]
        == racah6j_terms(t)[m] by {
        let k = lo + m;
        let (a, b, c, d) = (fact(k - t[0]), fact(k - t[1]), fact(k - t[2]), fact(k - t[3]));
        let (e, f, g) = (fact(t[4] - k), fact(t[5] - k), fact(t[6] - k));
        assert(a * b * c * d * e * f * g == a * b * c * d * f * e * g) by (nonlinear_arith);
        assert(a * b * c * d * e * f * g == a * b * c * d * g * f * e) by (nonlinear_arith);
        assert(a * b * c * d * e * f * g == a * b * c * d * e * g * f) by (nonlinear_arith);
    }
    assert(racah6j_terms(u) =~= racah6j_terms(t));
    assert forall|i: int| 0 <= i < 4 implies #[trigger] racah6j_triad_factor(u, i)
        == racah6j_triad_factor(t, i) by {
        let (e, f, g) = (fact(t[4] - t[i]), fact(t[5] - t[i]), fact(t[6] - t[i]));
        assert(e * f * g == f * e * g) by (nonlinear_arith);
        assert(e * f * g == g * f * e) by (nonlinear_arith);
        assert(e * f * g == e * g * f) by (nonlinear_arith);
    }
    assert(racah6j_triad_factor(u, 0) == racah6j_triad_factor(t, 0));
    assert(racah6j_triad_factor(u, 1) == racah6j_triad_factor(t, 1));
    assert(racah6j_triad_factor(u, 2) == racah6j_triad_factor(t, 2));
    assert(racah6j_triad_factor(u, 3) == racah6j_triad_factor(t, 3));
}

/// Label sets whose Racah sums agree up to a permutation within the triads
/// and within the columns have the same 6j value.
proof fn lemma_value_from_sums(
    d1: u32,
    d2: u32,
    d3: u32,
    d4: u32,
    d5: u32,
    d6: u32,
    e1: u32,
    e2: u32,
    e3: u32,
    e4: u32,
    e5: u32,
    e6: u32,
)
    requires
        six_j_admissible(d1, d2, d3, d4, d5, d6),
        six_j_admissible(e1, e2, e3, e4, e5, e6),
        racah6j_terms(racah6j_sums(e1 as int, e2 as int, e3 as int, e4 as int, e5 as int, e6 as int))
            == racah6j_terms(racah6j_sums(d1 as int, d2 as int, d3 as int, d4 as int, d5 as int, d6 as int)),
        racah6j_radical_sums(racah6j_sums(e1 as int, e2 as int, e3 as int, e4 as int, e5 as int, e6 as int))
            == racah6j_radical_sums(racah6j_sums(d1 as int, d2 as int, d3 as int, d4 as int, d5 as int, d6 as int)),
    ensures
        six_j_value(e1, e2, e3, e4, e5, e6) == six_j_value(d1, d2, d3, d4, d5, d6),
{
    lemma_radical_by_sums(d1, d2, d3, d4, d5, d6);
    lemma_radical_by_sums(e1, e2, e3, e4, e5, e6);
}

/// Exchanging the first two columns, `{d1 d2 d3; d4 d5 d6} ↦
/// {d2 d1 d3; d5 d4 d6}`, keeps admissibility and the 6j value.
pub proof fn lemma_six_j_swap_columns_12(d1: u32, d2: u32, d3: u32, d4: u32, d5: u32, d6: u32)
    ensures
        six_j_admissible(d2, d1, d3, d5, d4, d6) == six_j_admissible(d1, d2, d3, d4, d5, d6),
        six_j_admissible(d1, d2, d3, d4, d5, d6) ==> six_j_value(d2, d1, d3, d5, d4, d6)
            == six_j_value(d1, d2, d3, d4, d5, d6),
{
    if six_j_admissible(d1, d2, d3, d4, d5, d6) {
        let t = racah6j_sums(d1 as int, d2 as int, d3 as int, d4 as int, d5 as int, d6 as int);
        let u = racah6j_sums(d2 as int, d1 as int, d3 as int, d5 as int, d4 as int, d6 as int);
        let t1 = swap_at(t, 1, 2);
        assert(u =~= swap_at(t1, 5, 6));
        lemma_swap_triads(t, 1, 2);
        lemma_swap_columns(t1, 5, 6);
        lemma_value_from_sums(d1, d2, d3, d4, d5, d6, d2, d1, d3, d5, d4, d6);
    }
}

/// Exchanging the last two columns, `{d1 d2 d3; d4 d5 d6} ↦
/// {d1 d3 d2; d4 d6 d5}`, keeps admissibility and the 6j value.
pub proof fn lemma_six_j_swap_columns_23(d1: u32, d2: u32, d3: u32, d4: u32, d5: u32, d6: u32)
    ensures
        six_j_admissible(d1, d3, d2, d4, d6, d5) == six_j_admissible(d1, d2, d3, d4, d5, d6),
        six_j_admissible(d1, d2, d3, d4, d5, d6) ==> six_j_value(d1, d3, d2, d4, d6, d5)
            == six_j_value(d1, d2, d3, d4, d5, d6),
{
    if six_j_admissible(d1, d2, d3, d4, d5, d6) {
        let t = racah6j_sums(d1 as int, d2 as int, d3 as int, d4 as int, d5 as int, d6 as int);
        let u = racah6j_sums(d1 as int, d3 as int, d2 as int, d4 as int, d6 as int, d5 as int);
        let t1 = swap_at(t, 2, 3);
        assert(u =~= swap_at(t1, 4, 6));
        lemma_swap_triads(t, 2, 3);
        lemma_swap_columns(t1, 4, 6);
        lemma_value_from_sums(d1, d2, d3, d4, d5, d6, d1, d3, d2, d4, d6, d5);
    }
}

/// Exchanging upper and lower labels in the first two columns,
/// `{d1 d2 d3; d4 d5 d6} ↦ {d4 d5 d3; d1 d2 d6}`, keeps admissibility and the
/// 6j value.
pub proof fn lemma_six_j_flip_rows(d1: u32, d2: u32, d3: u32, d4: u32, d5: u32, d6: u32)
    ensures
        six_j_admissible(d4, d5, d3, d1, d2, d6) == six_j_admissible(d1, d2, d3, d4, d5, d6),
        six_j_admissible(d1, d2, d3, d4, d5, d6) ==> six_j_value(d4, d5, d3, d1, d2, d6)
            == six_j_value(d1, d2, d3, d4, d5, d6),
{
    if six_j_admissible(d1, d2, d3, d4, d5, d6) {
        let t = racah6j_sums(d1 as int, d2 as int, d3 as int, d4 as int, d5 as int, d6 as int);
        let u = racah6j_sums(d4 as int, d5 as int, d3 as int, d1 as int, d2 as int, d6 as int);
        let t1 = swap_at(t, 0, 3);
        assert(u =~= swap_at(t1, 1, 2));
        lemma_swap_triads(t, 0, 3);
        lemma_swap_triads(t1, 1, 2);
        lemma_value_from_sums(d1, d2, d3, d4, d5, d6, d4, d5, d3, d1, d2, d6);
    }
}

/// Regge's symmetry keeps the 6j value: for an admissible
/// `{d1 d2 d3; d4 d5 d6}`, the label set `{d1 e2 e3; d4 e5 e6}` with
/// `e2 = (d2+d3+d5-d6)/2`, `e3 = (d2+d3-d5+d6)/2`, `e5 = (d5+d6+d2-d3)/2`,
/// `e6 = (d5+d6-d2+d3)/2` is admissible and has the same value, so every
/// member of a Regge orbit shares both its canonical key and its value.
pub proof fn lemma_six_j_regge_symmetry(
    d1: u32,
    d2: u32,
    d3: u32,
    d4: u32,
    d5: u32,
    d6: u32,
    e2: u32,
    e3: u32,
    e5: u32,
    e6: u32,
)
    requires
        six_j_admissible(d1, d2, d3, d4, d5, d6),
        2 * e2 == d2 + d3 + d5 - d6,
        2 * e3 == d2 + d3 - d5 + d6,
        2 * e5 == d5 + d6 + d2 - d3,
        2 * e6 == d5 + d6 - d2 + d3,
    ensures
        six_j_admissible(d1, e2, e3, d4, e5, e6),
        six_j_value(d1, e2, e3, d4, e5, e6) == six_j_value(d1, d2, d3, d4, d5, d6),
{
    let t = racah6j_sums(d1 as int, d2 as int, d3 as int, d4 as int, d5 as int, d6 as int);
    let u = racah6j_sums(d1 as int, e2 as int, e3 as int, d4 as int, e5 as int, e6 as int);
    assert(u =~= swap_at(t, 2, 3));
    lemma_swap_triads(t, 2, 3);
    lemma_value_from_sums(d1, d2, d3, d4, d5, d6, d1, e2, e3, d4, e5, e6);
}

// ---- one key, one value ------------------------------------------------------

/// Compare-exchange of slots `i` and `j`: afterwards `s[i] ≤ s[j]`.
pub open spec fn cx(s: Seq<i64>, i: int, j: int) -> Seq<i64> {
    if s[i] <= s[j] {
        s
    } else {
        s.update(i, s[j]).update(j, s[i])
    }
}

/// Four entries in ascending order, by a compare-exchange network.
pub open spec fn net4(s: Seq<i64>) -> Seq<i64> {
    cx(cx(cx(cx(cx(s, 0, 1), 2, 3), 0, 2), 1, 3), 1, 2)
}

/// Three entries in ascending order, by a compare-exchange network.
pub open spec fn net3(s: Seq<i64>) -> Seq<i64> {
    cx(cx(cx(s, 0, 1), 1, 2), 0, 1)
}

/// The seven Racah sums from four triad sums `b` and three column sums `a`.
pub open spec fn join_sums(b: Seq<i64>, a: Seq<i64>) -> Seq<int> {
    seq![b[0] as int, b[1] as int, b[2] as int, b[3] as int, a[0] as int, a[1] as int, a[2] as int]
}

proof fn lemma_cx(s: Seq<i64>, i: int, j: int)
    requires
        0 <= i < j < s.len(),
    ensures
        cx(s, i, j).len() == s.len(),
        cx(s, i, j).to_multiset() == s.to_multiset(),
        cx(s, i, j)[i] == if s[i] <= s[j] { s[i] } else { s[j] },
        cx(s, i, j)[j] == if s[i] <= s[j] { s[j] } else { s[i] },
        forall|k: int| 0 <= k < s.len() && k != i && k != j ==> #[trigger] cx(s, i, j)[k] == s[k],
{
    if !(s[i] <= s[j]) {
        crate::order::lemma_swap_multiset(s, i, j);
    }
}

/// The network sorts four entries and keeps them.
proof fn lemma_net4(s: Seq<i64>)
    requires
        s.len() == 4,
    ensures
        net4(s).len() == 4,
        net4(s).to_multiset() == s.to_multiset(),
        vstd::relations::sorted_by(net4(s), le_i64()),
        net4(s)[0] + net4(s)[1] + net4(s)[2] + net4(s)[3] == s[0] + s[1] + s[2] + s[3],
{
    let s1 = cx(s, 0, 1);
    lemma_cx(s, 0, 1);
    let s2 = cx(s1, 2, 3);
    lemma_cx(s1, 2, 3);
    let s3 = cx(s2, 0, 2);
    lemma_cx(s2, 0, 2);
    let s4 = cx(s3, 1, 3);
    lemma_cx(s3, 1, 3);
    let s5 = cx(s4, 1, 2);
    lemma_cx(s4, 1, 2);
    assert(s1[2] == s[2] && s1[3] == s[3]);
    assert(s2[0] == s1[0] && s2[1] == s1[1]);
    assert(s3[1] == s2[1] && s3[3] == s2[3]);
    assert(s4[0] == s3[0] && s4[2] == s3[2]);
    assert(s5[0] == s4[0] && s5[3] == s4[3]);
    assert(s5[0] <= s5[1] <= s5[2] <= s5[3]);
}

/// The network sorts three entries and keeps them.
proof fn lemma_net3(s: Seq<i64>)
    requires
        s.len() == 3,
    ensures
        net3(s).len() == 3,
        net3(s).to_multiset() == s.to_multiset(),
        vstd::relations::sorted_by(net3(s), le_i64()),
        net3(s)[0] + net3(s)[1] + net3(s)[2] == s[0] + s[1] + s[2],
{
    let s1 = cx(s, 0, 1);
    lemma_cx(s, 0, 1);
    let s2 = cx(s1, 1, 2);
    lemma_cx(s1, 1, 2);
    let s3 = cx(s2, 0, 1);
    lemma_cx(s2, 0, 1);
    assert(s1[2] == s[2]);
    assert(s2[0] == s1[0]);
    assert(s3[2] == s2[2]);
    assert(s3[0] <= s3[1] <= s3[2]);
}

/// A compare-exchange among the triad sums, or among the column sums, keeps
/// the Racah terms and radical.
proof fn lemma_cx_keeps_sums(b: Seq<i64>, a: Seq<i64>, i: int, j: int, on_triads: bool)
    requires
        b.len() == 4,
        a.len() == 3,
        on_triads ==> 0 <= i < j < 4,
        !on_triads ==> 0 <= i < j < 3,
    ensures
        on_triads ==> racah6j_terms(join_sums(cx(b, i, j), a)) == racah6j_terms(join_sums(b, a))
            && racah6j_radical_sums(join_sums(cx(b, i, j), a)) == racah6j_radical_sums(
            join_sums(b, a),
        ),
        !on_triads ==> racah6j_terms(join_sums(b, cx(a, i, j))) == racah6j_terms(join_sums(b, a))
            && racah6j_radical_sums(join_sums(b, cx(a, i, j))) == racah6j_radical_sums(
            join_sums(b, a),
        ),
{
    let t = join_sums(b, a);
    if on_triads {
        if !(b[i] <= b[j]) {
            assert(join_sums(cx(b, i, j), a) =~= swap_at(t, i, j));
            lemma_swap_triads(t, i, j);
        }
    } else {
        if !(a[i] <= a[j]) {
            assert(join_sums(b, cx(a, i, j)) =~= swap_at(t, i + 4, j + 4));
            lemma_swap_columns(t, i + 4, j + 4);
        }
    }
}

/// Sorting the triad sums and the column sums keeps the Racah terms and
/// radical.
proof fn lemma_sorted_sums(b: Seq<i64>, a: Seq<i64>)
    requires
        b.len() == 4,
        a.len() == 3,
    ensures
        racah6j_terms(join_sums(net4(b), net3(a))) == racah6j_terms(join_sums(b, a)),
        racah6j_radical_sums(join_sums(net4(b), net3(a))) == racah6j_radical_sums(join_sums(b, a)),
{
    let b1 = cx(b, 0, 1);
    lemma_cx(b, 0, 1);
    lemma_cx_keeps_sums(b, a, 0, 1, true);
    let b2 = cx(b1, 2, 3);
    lemma_cx(b1, 2, 3);
    lemma_cx_keeps_sums(b1, a, 2, 3, true);
    let b3 = cx(b2, 0, 2);
    lemma_cx(b2, 0, 2);
    lemma_cx_keeps_sums(b2, a, 0, 2, true);
    let b4 = cx(b3, 1, 3);
    lemma_cx(b3, 1, 3);
    lemma_cx_keeps_sums(b3, a, 1, 3, true);
    lemma_cx(b4, 1, 2);
    lemma_cx_keeps_sums(b4, a, 1, 2, true);
    let n = net4(b);
    let a1 = cx(a, 0, 1);
    lemma_cx(a, 0, 1);
    lemma_cx_keeps_sums(n, a, 0, 1, false);
    let a2 = cx(a1, 1, 2);
    lemma_cx(a1, 1, 2);
    lemma_cx_keeps_sums(n, a1, 1, 2, false);
    lemma_cx(a2, 0, 1);
    lemma_cx_keeps_sums(n, a2, 0, 1, false);
}

/// Two sequences with the same elements sort alike under the networks.
proof fn lemma_net_unique(s: Seq<i64>, u: Seq<i64>)
    requires
        s.len() == u.len(),
        s.len() == 3 || s.len() == 4,
        s.to_multiset() == u.to_multiset(),
    ensures
        s.len() == 4 ==> net4(s) == net4(u),
        s.len() == 3 ==> net3(s) == net3(u),
{
    crate::order::lemma_le_i64_total();
    if s.len() == 4 {
        lemma_net4(s);
        lemma_net4(u);
        vstd::seq_lib::lemma_sorted_unique(net4(s), net4(u), le_i64());
    } else {
        lemma_net3(s);
        lemma_net3(u);
        vstd::seq_lib::lemma_sorted_unique(net3(s), net3(u), le_i64());
    }
}

/// The column sums in the order of the Racah sums.
pub open spec fn column_sums(d1: u32, d2: u32, d3: u32, d4: u32, d5: u32, d6: u32) -> Seq<i64> {
    let a = regge6j_alphas(d1, d2, d3, d4, d5, d6);
    seq![a[0], a[2], a[1]]
}

/// An admissible 6j symbol's Racah sums are its triad and column sums, and
/// its canonical key is read off their sorted forms.
proof fn lemma_key_from_sorted(d1: u32, d2: u32, d3: u32, d4: u32, d5: u32, d6: u32)
    requires
        six_j_admissible(d1, d2, d3, d4, d5, d6),
    ensures
        racah6j_sums(d1 as int, d2 as int, d3 as int, d4 as int, d5 as int, d6 as int) == join_sums(
            regge6j_betas(d1, d2, d3, d4, d5, d6),
            column_sums(d1, d2, d3, d4, d5, d6),
        ),
        regge6j_alphas(d1, d2, d3, d4, d5, d6).sort_by(le_i64()) == net3(
            column_sums(d1, d2, d3, d4, d5, d6),
        ),
        regge6j_betas(d1, d2, d3, d4, d5, d6).sort_by(le_i64()) == net4(
            regge6j_betas(d1, d2, d3, d4, d5, d6),
        ),
        net3(column_sums(d1, d2, d3, d4, d5, d6))[0] + net3(column_sums(d1, d2, d3, d4, d5, d6))[1]
            + net3(column_sums(d1, d2, d3, d4, d5, d6))[2] == net4(regge6j_betas(d1, d2, d3, d4, d5, d6))[0]
            + net4(regge6j_betas(d1, d2, d3, d4, d5, d6))[1] + net4(regge6j_betas(d1, d2, d3, d4, d5, d6))[2]
            + net4(regge6j_betas(d1, d2, d3, d4, d5, d6))[3],
{
    let a = regge6j_alphas(d1, d2, d3, d4, d5, d6);
    let b = regge6j_betas(d1, d2, d3, d4, d5, d6);
    let c = column_sums(d1, d2, d3, d4, d5, d6);
    assert(racah6j_sums(d1 as int, d2 as int, d3 as int, d4 as int, d5 as int, d6 as int) =~= join_sums(b, c));
    crate::order::lemma_le_i64_total();
    assert(c =~= a.update(1, a[2]).update(2, a[1]));
    crate::order::lemma_swap_multiset(a, 1, 2);
    lemma_net3(c);
    lemma_net4(b);
    a.lemma_sort_by_ensures(le_i64());
    b.lemma_sort_by_ensures(le_i64());
    vstd::seq_lib::lemma_sorted_unique(a.sort_by(le_i64()), net3(c), le_i64());
    vstd::seq_lib::lemma_sorted_unique(b.sort_by(le_i64()), net4(b), le_i64());
}

/// Sorted column and triad sums are fixed by the six key components and the
/// equality of the two totals.
proof fn lemma_sorted_from_components(ad: Seq<i64>, bd: Seq<i64>, ae: Seq<i64>, be: Seq<i64>)
    requires
        ad.len() == 3,
        ae.len() == 3,
        bd.len() == 4,
        be.len() == 4,
        ad[0] + ad[1] + ad[2] == bd[0] + bd[1] + bd[2] + bd[3],
        ae[0] + ae[1] + ae[2] == be[0] + be[1] + be[2] + be[3],
        ad[2] - bd[0] == ae[2] - be[0],
        ad[1] - bd[0] == ae[1] - be[0],
        ad[0] - bd[0] == ae[0] - be[0],
        ad[0] - bd[1] == ae[0] - be[1],
        ad[0] - bd[2] == ae[0] - be[2],
        ad[0] - bd[3] == ae[0] - be[3],
    ensures
        ad == ae,
        bd == be,
{
    assert(bd[0] == be[0]);
    assert(ad =~= ae);
    assert(bd =~= be);
}

/// One Regge key, one 6j value: two admissible 6j label sets with the same
/// canonical key have the same exact value, so a cache keyed by the
/// canonical key never answers with the value of another symbol.
#[verifier::rlimit(30)]
pub proof fn lemma_regge6j_key_determines_value(
    d1: u32,
    d2: u32,
    d3: u32,
    d4: u32,
    d5: u32,
    d6: u32,
    e1: u32,
    e2: u32,
    e3: u32,
    e4: u32,
    e5: u32,
    e6: u32,
)
    requires
        six_j_admissible(d1, d2, d3, d4, d5, d6),
        regge6j_key(e1, e2, e3, e4, e5, e6) == regge6j_key(d1, d2, d3, d4, d5, d6),
    ensures
        six_j_admissible(e1, e2, e3, e4, e5, e6),
        six_j_value(e1, e2, e3, e4, e5, e6) == six_j_value(d1, d2, d3, d4, d5, d6),
{
    assert(six_j_admissible(e1, e2, e3, e4, e5, e6));
    lemma_key_from_sorted(d1, d2, d3, d4, d5, d6);
    lemma_key_from_sorted(e1, e2, e3, e4, e5, e6);
    let bd = regge6j_betas(d1, d2, d3, d4, d5, d6);
    let cd = column_sums(d1, d2, d3, d4, d5, d6);
    let be = regge6j_betas(e1, e2, e3, e4, e5, e6);
    let ce = column_sums(e1, e2, e3, e4, e5, e6);
    let kd = regge6j_components(d1, d2, d3, d4, d5, d6);
    let ke = regge6j_components(e1, e2, e3, e4, e5, e6);
    let (ad, bds) = (net3(cd), net4(bd));
    let (ae, bes) = (net3(ce), net4(be));
    assert(kd == ke);
    assert(kd == seq![
        ad[2] - bds[0],
        ad[1] - bds[0],
        ad[0] - bds[0],
        ad[0] - bds[1],
        ad[0] - bds[2],
        ad[0] - bds[3],
    ]);
    assert(ke == seq![
        ae[2] - bes[0],
        ae[1] - bes[0],
        ae[0] - bes[0],
        ae[0] - bes[1],
        ae[0] - bes[2],
        ae[0] - bes[3],
    ]);
    lemma_net3(cd);
    lemma_net3(ce);
    lemma_net4(bd);
    lemma_net4(be);
    lemma_sorted_from_components(ad, bds, ae, bes);
    lemma_sorted_sums(bd, cd);
    lemma_sorted_sums(be, ce);
    lemma_value_from_sums(d1, d2, d3, d4, d5, d6, e1, e2, e3, e4, e5, e6);
}

// ---- one 3j orbit, one representative ------------------------------------------

/// The index of `perm3(a)` read through `perm3(b)`: the permutation that
/// applies `perm3(a)`, then `perm3(b)`.
pub open spec fn perm3_mul(a: int, b: int) -> int {
    seq![
        seq![0int, 1, 2, 3, 4, 5],
        seq![1int, 0, 4, 5, 2, 3],
        seq![2int, 3, 0, 1, 5, 4],
        seq![3int, 2, 5, 4, 0, 1],
        seq![4int, 5, 1, 0, 3, 2],
        seq![5int, 4, 3, 2, 1, 0],
    ][a][b]
}

/// The index `k` with `perm3_mul(a, k) == c`.
pub open spec fn perm3_div(a: int, c: int) -> int {
    seq![
        seq![0int, 1, 2, 3, 4, 5],
        seq![1int, 0, 4, 5, 2, 3],
        seq![2int, 3, 0, 1, 5, 4],
        seq![4int, 5, 1, 0, 3, 2],
        seq![3int, 2, 5, 4, 0, 1],
        seq![5int, 4, 3, 2, 1, 0],
    ][a][c]
}

/// The group element "apply `h`, then `g`".
pub open spec fn compose3j(h: int, g: int) -> int {
    2 * perm3_mul(h / 2, g / 2) + (h % 2 + g % 2) % 2
}

/// The element `k` with `compose3j(h, k) == g`.
pub open spec fn divide3j(h: int, g: int) -> int {
    2 * perm3_div(h / 2, g / 2) + (g % 2 + h % 2) % 2
}

/// Taking the image under `h`, then under `g`, is taking the image under
/// `compose3j(h, g)`.
proof fn lemma_image3j_compose(dj: Seq<int>, dm: Seq<int>, h: int, g: int)
    requires
        dj.len() == 3,
        dm.len() == 3,
        0 <= h < 12,
        0 <= g < 12,
    ensures
        0 <= compose3j(h, g) < 12,
        image3j(image3j(dj, dm, h).0, image3j(dj, dm, h).1, g) == image3j(dj, dm, compose3j(h, g)),
{
    let x = image3j(dj, dm, h);
    let y = image3j(x.0, x.1, g);
    let z = image3j(dj, dm, compose3j(h, g));
    assert(y.0 =~= z.0);
    assert(y.1 =~= z.1);
}

/// Every group element is reached from `h` by composing with `divide3j(h, g)`.
proof fn lemma_divide3j(h: int, g: int)
    requires
        0 <= h < 12,
        0 <= g < 12,
    ensures
        0 <= divide3j(h, g) < 12,
        compose3j(h, divide3j(h, g)) == g,
{
}

/// Neither of two label pairs is below the other: they are equal.
proof fn lemma_lex_antisym(a: (Seq<int>, Seq<int>), b: (Seq<int>, Seq<int>))
    requires
        a.0.len() == 3,
        a.1.len() == 3,
        b.0.len() == 3,
        b.1.len() == 3,
        !lex_lt(a, b),
        !lex_lt(b, a),
    ensures
        a == b,
{
    assert(a.0 =~= b.0);
    assert(a.1 =~= b.1);
}

/// Every image of a 3j label set has the same canonical representative: the
/// twelve permutations and sign flips act as a group, so an image has the
/// same twelve images, and the representative is their largest.
pub proof fn lemma_regge3j_orbit_one_rep(dj: Seq<int>, dm: Seq<int>, h: int)
    requires
        dj.len() == 3,
        dm.len() == 3,
        0 <= h < 12,
    ensures
        ({
            let x = image3j(dj, dm, h);
            image3j(x.0, x.1, best3j(x.0, x.1, 12)) == image3j(dj, dm, best3j(dj, dm, 12))
        }),
{
    let x = image3j(dj, dm, h);
    assert(x.0.len() == 3 && x.1.len() == 3);
    lemma_best3j_is_max(dj, dm, 12);
    lemma_best3j_is_max(x.0, x.1, 12);
    let b = best3j(dj, dm, 12);
    let bx = best3j(x.0, x.1, 12);
    let r = image3j(dj, dm, b);
    let rx = image3j(x.0, x.1, bx);
    lemma_image3j_compose(dj, dm, h, bx);
    assert(rx == image3j(dj, dm, compose3j(h, bx)));
    assert(!lex_lt(r, rx));
    lemma_divide3j(h, b);
    let k = divide3j(h, b);
    lemma_image3j_compose(dj, dm, h, k);
    assert(image3j(x.0, x.1, k) == r);
    assert(!lex_lt(rx, image3j(x.0, x.1, k)));
    lemma_lex_antisym(r, rx);
}

} // verus!

