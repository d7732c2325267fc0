//! Exact SO(N)/Sp(2N) representation combinatorics for the B, C, D Cartan
//! series: irrep labels, duals and Frobenius–Schur indicators, in pure
//! integer arithmetic.
//!
//! The published object is the set of finite-dimensional linear
//! representations of SO(2r+1) (`B_r`), Sp(2r) (`C_r`) and SO(2r) (`D_r`):
//! the tensor irreps, with integer highest weights in the orthonormal
//! ε-basis. A spinor Dynkin label is rejected with [`BcdError::SpinorLabel`].
//!
//! An [`Irrep`] stores its highest weight as an integer partition `λ` of
//! length `r`:
//!
//! - `B_r`, `C_r`: `λ₁ ≥ λ₂ ≥ … ≥ λ_r ≥ 0`.
//! - `D_r`: `λ₁ ≥ … ≥ λ_{r-1} ≥ |λ_r|`; the sign of `λ_r` is the chirality.
//!
//! Dynkin labels `a = (a₁,…,a_r)` relate to the partition by
//!
//! - `B_r`: `aᵢ = λᵢ − λ_{i+1}` (`i<r`), `a_r = 2λ_r`; tensor iff `a_r` even.
//! - `C_r`: `aᵢ = λᵢ − λ_{i+1}` (`i<r`), `a_r = λ_r`; every label is tensor.
//! - `D_r`: `aᵢ = λᵢ − λ_{i+1}` (`i≤r-2`), `a_{r-1} = λ_{r-1} − λ_r`,
//!   `a_r = λ_{r-1} + λ_r`; tensor iff `a_{r-1} + a_r` even.
//!
//! The low ranks `B_1 = SO(3)`, `C_1 = Sp(2)` (both `≅ SU(2)`) and
//! `D_2 = SO(4) ≅ SU(2)×SU(2)` are rejected with a redirection.

use vstd::prelude::*;
use crate::bignum::{big_div, big_from_u128, big_from_u64, big_mul, bigint_value};
use crate::weyl::{
    all_bounded, bounded, copy_vec, distinct_vecs, dominant_conjugate_signed, dot, dot_spec, dot_wide,
    in_positive_root_cone, is_positive_root, lemma_dot_root_vec, is_singular, conjugation_sign,
    is_weyl_image, two_rho_entry, all_positive_roots, position_of, positive_roots,
    positive_roots_spec, root_vec, same_vec, simple_root_coeffs, two_rho,
    two_rho_seq, vec_views, weyl_dominant, weyl_dominant_spec, simple_coeff, weyl_orbit, RANK_BOUND, WEIGHT_BOUND, extends, holds_vec,
    lemma_holds_extends, lemma_extends_trans, lemma_simple_coeff_bound, lemma_weyl_dominant_in_box,
};
use num_bigint::BigInt;
use crate::group::{admits_spec, all_nonneg, odd_sum, CenterSubgroup, GlobalForm, GroupId, RootSystem};
pub use crate::seeds::{check_commutators, defining_seed, CommReport, Seed};

verus! {

/// The three orthogonal/symplectic Cartan series.
///
/// `B_r = SO(2r+1)`, `C_r = Sp(2r)`, `D_r = SO(2r)`.
#[derive(Clone, Copy, Debug, PartialEq, Eq, Structural, Hash, PartialOrd, Ord)]
pub enum Series {
    /// `B_r = SO(2r+1)` (odd orthogonal).
    B,
    /// `C_r = Sp(2r)` (symplectic).
    C,
    /// `D_r = SO(2r)` (even orthogonal).
    D,
}

/// The minimum rank at which a series is not an excluded isomorphism.
pub open spec fn min_rank_spec(series: Series) -> nat {
    match series {
        Series::B | Series::C => 2,
        Series::D => 3,
    }
}

impl Series {
    /// A human-readable name of the series.
    pub fn name(self) -> (s: &'static str)
        ensures
            self == Series::B ==> s@ == "B (SO(2r+1))"@,
            self == Series::C ==> s@ == "C (Sp(2r))"@,
            self == Series::D ==> s@ == "D (SO(2r))"@,
    {
        match self {
            Series::B => "B (SO(2r+1))",
            Series::C => "C (Sp(2r))",
            Series::D => "D (SO(2r))",
        }
    }

    /// The minimum rank at which the series is not an excluded isomorphism.
    pub fn min_rank(self) -> (r: usize)
        ensures
            r == min_rank_spec(self),
    {
        match self {
            Series::B | Series::C => 2,
            Series::D => 3,
        }
    }

    /// Redirection guidance for the excluded low rank.
    pub(crate) fn low_rank_redirect(self) -> (s: &'static str)
        ensures
            self == Series::D ==> s@ == "use SU(2)×SU(2) instead"@,
            self != Series::D ==> s@ == "use SU(2) instead"@,
    {
        match self {
            // B_1 = SO(3) ≅ SU(2); C_1 = Sp(2) ≅ SU(2).
            Series::B | Series::C => "use SU(2) instead",
            // D_2 = SO(4) ≅ SU(2)×SU(2).
            Series::D => "use SU(2)×SU(2) instead",
        }
    }
}

/// Error for a malformed or out-of-scope B/C/D irrep label, or an ill-posed
/// product. Public constructors never panic; they return this instead.
#[derive(Debug, PartialEq, Eq)]
pub enum BcdError {
    /// A rank-0 (empty) Dynkin label.
    EmptyLabel,
    /// A Dynkin label with a negative component.
    NegativeDynkin {
        /// The offending Dynkin label.
        dynkin: Vec<i64>,
    },
    /// A rank that is one of the excluded low-rank isomorphisms (`SO(3)`,
    /// `Sp(2)`, `SO(4)`), which the SU(2) machinery handles.
    ExcludedRank {
        /// The series.
        series: Series,
        /// The offending rank `r`.
        rank: usize,
        /// Where to go instead (e.g. `"use SU(2) instead"`).
        redirect: &'static str,
    },
    /// A Dynkin label that denotes a spinor representation of `Spin(N)`, not
    /// a tensor representation of `SO(N)`.
    SpinorLabel {
        /// The series.
        series: Series,
        /// The offending Dynkin label.
        dynkin: Vec<i64>,
    },
    /// A product of irreps from different series or ranks.
    GroupMismatch {
        /// The first operand as `(series, rank)`.
        a: (Series, usize),
        /// The second operand as `(series, rank)`.
        b: (Series, usize),
    },
    /// A generator seed failed the exact commutator self-check
    /// ([`check_commutators`](crate::seeds::check_commutators)): names the
    /// violated relation and the generator indices involved.
    CommutatorViolation {
        /// The series.
        series: Series,
        /// The violated relation (e.g. `"cartan not mutually orthogonal"`).
        relation: &'static str,
        /// First generator index.
        i: usize,
        /// Second generator index.
        j: usize,
    },
    /// An exact weight computation left the range of its integer types.
    ArithmeticOverflow,
}

impl Clone for BcdError {
    fn clone(&self) -> (c: Self) {
        match self {
            BcdError::EmptyLabel => BcdError::EmptyLabel,
            BcdError::NegativeDynkin { dynkin } => BcdError::NegativeDynkin {
                dynkin: dynkin.clone(),
            },
            BcdError::ExcludedRank { series, rank, redirect } => BcdError::ExcludedRank {
                series: *series,
                rank: *rank,
                redirect: *redirect,
            },
            BcdError::SpinorLabel { series, dynkin } => BcdError::SpinorLabel {
                series: *series,
                dynkin: dynkin.clone(),
            },
            BcdError::GroupMismatch { a, b } => BcdError::GroupMismatch {
                a: (a.0, a.1),
                b: (b.0, b.1),
            },
            BcdError::CommutatorViolation { series, relation, i, j } => BcdError::CommutatorViolation {
                series: *series,
                relation: *relation,
                i: *i,
                j: *j,
            },
            BcdError::ArithmeticOverflow => BcdError::ArithmeticOverflow,
        }
    }
}

// ---- the label model --------------------------------------------------------

/// `Σ_{i ≤ k < j} a[k]`.
pub open spec fn range_sum(a: Seq<i64>, i: int, j: int) -> int
    decreases j - i,
{
    if i >= j {
        0
    } else {
        a[i] as int + range_sum(a, i + 1, j)
    }
}

/// Whether every component of a label is non-negative.
pub open spec fn nonneg(a: Seq<i64>) -> bool {
    forall|i: int| 0 <= i < a.len() ==> a[i] >= 0
}

/// Whether a Dynkin label is a tensor (non-spinor) label of `series`.
pub open spec fn is_tensor_label(series: Series, a: Seq<i64>) -> bool {
    let r = a.len();
    match series {
        Series::B => a[r - 1] % 2 == 0,
        Series::C => true,
        Series::D => (a[r - 2] + a[r - 1]) % 2 == 0,
    }
}

/// Whether the partition of a valid label fits in `i64`: its largest entry
/// does, and for `D` so does the sum of the last two labels.
pub open spec fn label_fits(series: Series, a: Seq<i64>) -> bool {
    let r = a.len() as int;
    &&& partition_entry(series, a, 0) <= i64::MAX
    &&& series == Series::D ==> a[r - 2] + a[r - 1] <= i64::MAX
}

/// Whether [`Irrep::from_dynkin`] accepts a label.
pub open spec fn valid_label(series: Series, a: Seq<i64>) -> bool {
    &&& a.len() >= min_rank_spec(series)
    &&& nonneg(a)
    &&& is_tensor_label(series, a)
}

/// Entry `i` of the ε-basis partition of the Dynkin label `a`.
pub open spec fn partition_entry(series: Series, a: Seq<i64>, i: int) -> int {
    let r = a.len() as int;
    match series {
        Series::B => range_sum(a, i, r - 1) + a[r - 1] / 2,
        Series::C => range_sum(a, i, r - 1) + a[r - 1],
        Series::D => if i == r - 1 {
            (a[r - 1] - a[r - 2]) / 2
        } else {
            range_sum(a, i, r - 2) + (a[r - 1] + a[r - 2]) / 2
        },
    }
}

/// The ε-basis partition of a tensor Dynkin label.
pub open spec fn partition_spec(series: Series, a: Seq<i64>) -> Seq<i64> {
    Seq::new(a.len(), |i: int| partition_entry(series, a, i) as i64)
}

/// Entry `i` of the Dynkin label of the partition `lam`.
pub open spec fn dynkin_entry(series: Series, lam: Seq<i64>, i: int) -> int {
    let r = lam.len() as int;
    if i < r - 1 {
        lam[i] - lam[i + 1]
    } else {
        match series {
            Series::B => 2 * lam[r - 1],
            Series::C => lam[r - 1] as int,
            Series::D => lam[r - 2] + lam[r - 1],
        }
    }
}

/// The Dynkin label of a partition.
pub open spec fn dynkin_spec(series: Series, lam: Seq<i64>) -> Seq<i64> {
    Seq::new(lam.len(), |i: int| dynkin_entry(series, lam, i) as i64)
}

/// Whether `lam` is a dominant integral tensor weight of `series` that the
/// library can hold: non-increasing, non-negative (B, C) or with
/// `λ_{r-1} ≥ |λ_r|` (D), of rank at least the series minimum, and with its
/// Dynkin label (and the sum of the last two labels, for D) within `i64`.
pub open spec fn weight_wf(series: Series, lam: Seq<i64>) -> bool {
    let r = lam.len() as int;
    &&& r >= min_rank_spec(series)
    &&& match series {
        Series::B | Series::C => {
            &&& forall|i: int, j: int| 0 <= i <= j < r ==> lam[i] >= lam[j]
            &&& forall|i: int| 0 <= i < r ==> lam[i] >= 0
            &&& series == Series::B ==> 2 * lam[r - 1] <= i64::MAX
        },
        Series::D => {
            &&& forall|i: int, j: int| 0 <= i <= j < r - 1 ==> lam[i] >= lam[j]
            &&& forall|i: int| 0 <= i < r - 1 ==> lam[i] >= 0
            &&& lam[r - 2] >= lam[r - 1]
            &&& lam[r - 2] >= -lam[r - 1]
            &&& 2 * lam[r - 2] <= i64::MAX
        },
    }
}

/// An irreducible tensor representation of `SO(2r+1)`, `Sp(2r)` or `SO(2r)`,
/// labelled by its highest weight (an integer partition in the ε-basis).
///
/// Two `Irrep`s are equal iff they denote the same irrep; the order is
/// deterministic.
#[derive(Debug, PartialEq, Eq, Hash, PartialOrd, Ord)]
pub struct Irrep {
    series: Series,
    /// Highest weight `λ` in the ε-basis, length `r`.
    weight: Vec<i64>,
}

impl Irrep {
    /// The highest weight is a well-formed dominant tensor weight.
    #[verifier::type_invariant]
    spec fn inv(self) -> bool {
        weight_wf(self.series, self.weight@)
    }

    /// The series of this irrep.
    pub closed spec fn series_spec(self) -> Series {
        self.series
    }

    /// The highest weight of this irrep as an ε-basis partition.
    pub closed spec fn weight_spec(self) -> Seq<i64> {
        self.weight@
    }
}



impl Clone for Irrep {
    fn clone(&self) -> (c: Self)
        ensures
            c.series_spec() == self.series_spec(),
            c.weight_spec() == self.weight_spec(),
    {
        proof {
            use_type_invariant(self);
        }
        Irrep { series: self.series, weight: copy_label(self.weight.as_slice()) }
    }
}

// ---- arithmetic facts on label sums -------------------------------------------

proof fn lemma_range_sum_split(a: Seq<i64>, i: int, k: int, j: int)
    requires
        i <= k <= j,
    ensures
        range_sum(a, i, j) == range_sum(a, i, k) + range_sum(a, k, j),
    decreases k - i,
{
    if i < k {
        lemma_range_sum_split(a, i + 1, k, j);
    }
}

proof fn lemma_range_sum_nonneg(a: Seq<i64>, i: int, j: int)
    requires
        nonneg(a),
        0 <= i,
        j <= a.len(),
    ensures
        range_sum(a, i, j) >= 0,
    decreases j - i,
{
    if i < j {
        lemma_range_sum_nonneg(a, i + 1, j);
    }
}

/// The sum of consecutive differences telescopes.
proof fn lemma_range_sum_telescopes(d: Seq<i64>, lam: Seq<i64>, i: int, k: int)
    requires
        0 <= i <= k < lam.len(),
        k <= d.len(),
        forall|j: int| 0 <= j < k ==> d[j] == lam[j] - lam[j + 1],
    ensures
        range_sum(d, i, k) == lam[i] - lam[k],
    decreases k - i,
{
    if i < k {
        lemma_range_sum_telescopes(d, lam, i + 1, k);
    }
}

/// The entries of the partition of a valid label lie between `0` and the
/// first entry.
proof fn lemma_partition_entry_bounds(series: Series, a: Seq<i64>, i: int)
    requires
        valid_label(series, a),
        0 <= i < a.len(),
    ensures
        partition_entry(series, a, i) <= partition_entry(series, a, 0),
        series != Series::D || i < a.len() - 1 ==> partition_entry(series, a, i) >= 0,
        series == Series::D && i == a.len() - 1 ==> partition_entry(series, a, i) >= -partition_entry(series, a, a.len() - 2),
{
    let r = a.len() as int;
    let top = if series == Series::D { r - 2 } else { r - 1 };
    if i <= top {
        lemma_range_sum_split(a, 0, i, top);
        lemma_range_sum_nonneg(a, 0, i);
        lemma_range_sum_nonneg(a, i, top);
    } else {
        lemma_range_sum_nonneg(a, 0, top);
    }
}

// ---- label <-> partition maps -----------------------------------------------

/// Partition (ε-basis) `λ` from the Dynkin labels `a` of a valid tensor label.
fn dynkin_to_partition(series: Series, a: &[i64]) -> (lam: Vec<i64>)
    requires
        valid_label(series, a@),
        label_fits(series, a@),
    ensures
        lam@ == partition_spec(series, a@),
{
    let r = a.len();
    let mut lam: Vec<i64> = vec![0i64; r];
    let top: usize;
    match series {
        Series::B => {
            // λ_r = a_r/2.
            lam.set(r - 1, a[r - 1] / 2);
            top = r - 1;
        },
        Series::C => {
            // λ_r = a_r.
            lam.set(r - 1, a[r - 1]);
            top = r - 1;
        },
        Series::D => {
            // λ_{r-1} = (a_{r-1}+a_r)/2, λ_r = (a_r-a_{r-1})/2.
            assert((a@[r - 1] - a@[r - 2]) % 2 == 0);
            lam.set(r - 1, (a[r - 1] - a[r - 2]) / 2);
            lam.set(r - 2, (a[r - 1] + a[r - 2]) / 2);
            top = r - 2;
        },
    }
    let mut i = top;
    // λ_i = λ_{i+1} + a_i.
    while i > 0
        invariant
            valid_label(series, a@),
            label_fits(series, a@),
            r == a.len(),
            lam.len() == r,
            top == if series == Series::D { r - 2 } else { r - 1 },
            i <= top,
            forall|j: int| i <= j < r ==> lam@[j] == partition_entry(series, a@, j),
        decreases i,
    {
        i = i - 1;
        proof {
            lemma_partition_entry_bounds(series, a@, i as int);
            lemma_partition_entry_bounds(series, a@, i + 1);
        }
        let v = lam[i + 1] + a[i];
        lam.set(i, v);
    }
    assert(lam@ =~= partition_spec(series, a@));
    lam
}

/// Dynkin labels `a` from a partition `λ` (the inverse of
/// [`dynkin_to_partition`]).
fn partition_to_dynkin(series: Series, lam: &[i64]) -> (a: Vec<i64>)
    requires
        weight_wf(series, lam@),
    ensures
        a@ == dynkin_spec(series, lam@),
{
    let r = lam.len();
    let mut a: Vec<i64> = Vec::new();
    let mut i: usize = 0;
    while i < r - 1
        invariant
            weight_wf(series, lam@),
            r == lam.len(),
            i <= r - 1,
            a.len() == i,
            forall|j: int| 0 <= j < i ==> a@[j] == lam@[j] - lam@[j + 1],
        decreases r - 1 - i,
    {
        a.push(lam[i] - lam[i + 1]);
        i = i + 1;
    }
    match series {
        Series::B => a.push(2 * lam[r - 1]),
        Series::C => a.push(lam[r - 1]),
        Series::D => a.push(lam[r - 2] + lam[r - 1]),
    }
    assert(a@ =~= dynkin_spec(series, lam@));
    a
}

/// A copy of a label.
fn copy_label(a: &[i64]) -> (v: Vec<i64>)
    ensures
        v@ == a@,
{
    let mut v: Vec<i64> = Vec::new();
    let mut i: usize = 0;
    while i < a.len()
        invariant
            i <= a.len(),
            v@ == a@.subrange(0, i as int),
        decreases a.len() - i,
    {
        v.push(a[i]);
        i = i + 1;
    }
    assert(a@.subrange(0, a.len() as int) =~= a@);
    v
}

// ---- round trips --------------------------------------------------------------

/// Reading the Dynkin label back off the partition of a valid tensor label
/// gives the label itself.
pub proof fn lemma_dynkin_of_partition(series: Series, a: Seq<i64>)
    requires
        valid_label(series, a),
        label_fits(series, a),
    ensures
        weight_wf(series, partition_spec(series, a)),
        dynkin_spec(series, partition_spec(series, a)) == a,
{
    let r = a.len() as int;
    let lam = partition_spec(series, a);
    if series == Series::D {
        lemma_half_sum_diff(a[r - 1] as int, a[r - 2] as int);
    }
    assert forall|i: int| 0 <= i < r implies lam[i] == partition_entry(series, a, i) by {
        lemma_partition_entry_bounds(series, a, i);
    }
    lemma_partition_entry_bounds(series, a, r - 1);
    if series == Series::D {
        lemma_partition_entry_bounds(series, a, r - 2);
    }
    let top = if series == Series::D { r - 2 } else { r - 1 };
    assert forall|i: int, j: int| 0 <= i <= j <= top implies lam[i] >= lam[j] by {
        lemma_range_sum_split(a, i, j, top);
        lemma_range_sum_nonneg(a, i, j);
        lemma_partition_entry_bounds(series, a, i);
        lemma_partition_entry_bounds(series, a, j);
    }
    if series == Series::D {
        assert(lam[r - 2] >= lam[r - 1]);
        assert(lam[r - 2] >= -lam[r - 1]);
        assert(2 * lam[r - 2] <= i64::MAX);
    } else {
        assert forall|i: int| 0 <= i < r implies lam[i] >= 0 by {
            lemma_partition_entry_bounds(series, a, i);
        }
        assert(range_sum(a, r - 1, r - 1) == 0);
    }
    assert(dynkin_spec(series, lam) =~= a);
}

/// Reading the partition back off the Dynkin label of a well-formed weight
/// gives the weight itself, and that label is valid.
pub proof fn lemma_partition_of_dynkin(series: Series, lam: Seq<i64>)
    requires
        weight_wf(series, lam),
    ensures
        valid_label(series, dynkin_spec(series, lam)),
        label_fits(series, dynkin_spec(series, lam)),
        partition_spec(series, dynkin_spec(series, lam)) == lam,
{
    let r = lam.len() as int;
    let a = dynkin_spec(series, lam);
    let top = if series == Series::D { r - 2 } else { r - 1 };
    assert forall|i: int| 0 <= i <= top implies #[trigger] range_sum(a, i, top) == lam[i] - lam[top] by {
        lemma_range_sum_telescopes(a, lam, i, top);
    }
    assert(range_sum(a, 0, top) == lam[0] - lam[top]);
    if series == Series::D {
        lemma_half_sum_diff(a[r - 1] as int, a[r - 2] as int);
    }
    assert(partition_spec(series, a) =~= lam);
}

// ---- duality ---------------------------------------------------------------------

/// The highest weight of the dual irrep: `-w₀(λ)`, which is `λ` itself except
/// for `D_r` with `r` odd, where it flips the sign of `λ_r`.
pub open spec fn dual_weight(series: Series, w: Seq<i64>) -> Seq<i64> {
    if series == Series::D && w.len() % 2 == 1 {
        w.update(w.len() - 1, (-w[w.len() - 1]) as i64)
    } else {
        w
    }
}

/// The Frobenius–Schur indicator of the irrep with highest weight `w`:
/// `B` is always real, `C` is real or quaternionic by the parity of `Σ λᵢ`,
/// and `D` is real when self-dual and complex otherwise.
pub open spec fn frobenius_schur_spec(series: Series, w: Seq<i64>) -> int {
    match series {
        Series::B => 1,
        Series::C => if range_sum(w, 0, w.len() as int) % 2 == 0 {
            1
        } else {
            -1
        },
        Series::D => if dual_weight(series, w) == w {
            1
        } else {
            0
        },
    }
}

/// `Σ a[k]` over `k = i, i+2, i+4, …` below `n`.
pub open spec fn alternate_sum(a: Seq<i64>, i: int, n: int) -> int
    decreases n - i,
{
    if i >= n {
        0
    } else if i + 2 > n {
        a[i] as int
    } else {
        a[i] + alternate_sum(a, i + 2, n)
    }
}

/// A range sum splits into its two alternating halves.
proof fn lemma_range_sum_alternate(a: Seq<i64>, i: int, n: int)
    requires
        i <= n,
    ensures
        range_sum(a, i, n) == alternate_sum(a, i, n) + alternate_sum(a, i + 1, n),
    decreases n - i,
{
    if i < n {
        lemma_range_sum_alternate(a, i + 1, n);
    }
}

/// The sum of the entries of `w`, where `w[j]` is the tail sum of `a` from
/// `j`, has the parity of the alternating sum of `a` from `i`.
proof fn lemma_tail_sums_parity(a: Seq<i64>, w: Seq<i64>, i: int, n: int)
    requires
        0 <= i <= n,
        forall|j: int| 0 <= j < n ==> #[trigger] w[j] == range_sum(a, j, n),
    ensures
        (range_sum(w, i, n) - alternate_sum(a, i, n)) % 2 == 0,
    decreases n - i,
{
    if i < n {
        lemma_tail_sums_parity(a, w, i + 1, n);
        lemma_range_sum_alternate(a, i, n);
        let x = alternate_sum(a, i + 1, n);
        let y = range_sum(w, i + 1, n) - x;
        assert((2 * x + y) % 2 == 0) by {
            vstd::arithmetic::div_mod::lemma_mod_multiples_vanish(x, y, 2);
        }
    }
}

/// The Frobenius–Schur indicator of `Sp(2r)` in Dynkin labels: the irrep with
/// label `a` is real when `a₁ + a₃ + a₅ + …` (the labels at odd positions,
/// counted from `1`) is even, and quaternionic when it is odd.
pub proof fn lemma_frobenius_schur_symplectic(a: Seq<i64>)
    requires
        valid_label(Series::C, a),
        label_fits(Series::C, a),
    ensures
        frobenius_schur_spec(Series::C, partition_spec(Series::C, a)) == if alternate_sum(a, 0, a.len() as int)
            % 2 == 0 {
            1int
        } else {
            -1int
        },
{
    let r = a.len() as int;
    let w = partition_spec(Series::C, a);
    assert forall|j: int| 0 <= j < r implies #[trigger] w[j] == range_sum(a, j, r) by {
        lemma_partition_entry_bounds(Series::C, a, j);
        lemma_range_sum_split(a, j, r - 1, r);
        assert(range_sum(a, r, r) == 0);
        assert(range_sum(a, r - 1, r) == a[r - 1]);
    }
    lemma_tail_sums_parity(a, w, 0, r);
}

/// Extending the range of an alternating sum by one slot adds that slot when
/// it is at an even distance from the start.
proof fn lemma_alternate_sum_extend(a: Seq<i64>, i: int, n: int)
    requires
        0 <= i <= n < a.len(),
    ensures
        alternate_sum(a, i, n + 1) == alternate_sum(a, i, n) + if (n - i) % 2 == 0 {
            a[n] as int
        } else {
            0
        },
    decreases n - i,
{
    if i + 2 <= n {
        lemma_alternate_sum_extend(a, i + 2, n);
    } else if i + 1 == n {
        assert(alternate_sum(a, i + 2, n + 1) == 0);
    } else {
        assert(alternate_sum(a, i, n) == 0);
    }
}

/// The alternating sum from the first slot is the odd-position sum
/// `a_1 + a_3 + …` (1-based) of the group module.
proof fn lemma_alternate_is_odd_sum(a: Seq<i64>, n: nat)
    requires
        n <= a.len(),
    ensures
        alternate_sum(a, 0, n as int) == odd_sum(a, n),
    decreases n,
{
    if n > 0 {
        lemma_alternate_is_odd_sum(a, (n - 1) as nat);
        lemma_alternate_sum_extend(a, 0, n - 1);
    }
}

/// `PSp(2r) = Sp(2r)/Z2` admits exactly the real irreps of `Sp(2r)`: a label
/// is a representation of the quotient iff its Frobenius–Schur indicator is
/// `+1`, and the quaternionic irreps (indicator `-1`) are the ones on which
/// `-I` acts as `-1`.
pub proof fn lemma_psp_admits_real_irreps(r: usize, a: Seq<i64>)
    requires
        a.len() == r,
        valid_label(Series::C, a),
        label_fits(Series::C, a),
    ensures
        admits_spec(
            GroupId { root_system: RootSystem::C(r), form: GlobalForm::Quotient(CenterSubgroup::Z2) },
            a,
        ) <==> frobenius_schur_spec(Series::C, partition_spec(Series::C, a)) == 1,
{
    lemma_frobenius_schur_symplectic(a);
    lemma_alternate_is_odd_sum(a, r as nat);
    assert(all_nonneg(a)) by {
        assert forall|i: int| 0 <= i < a.len() implies a[i] >= 0 by {
            assert(nonneg(a));
        }
    }
}

/// `SO(N) = Spin(N)/Z2` admits exactly the tensor labels: for `B_r` the
/// quotient by `Z2`, for `D_r` the vector form (equivalently the `Z2` form),
/// accept a non-negative label iff it is a tensor label. So every irrep this
/// module builds for `B` and `D` is a representation of `SO(N)`, and the
/// labels it rejects as spinors are exactly those `SO(N)` does not admit.
pub proof fn lemma_orthogonal_forms_admit_tensor_labels(series: Series, r: usize, a: Seq<i64>)
    requires
        series != Series::C,
        a.len() == r,
        r >= min_rank_spec(series),
        nonneg(a),
    ensures
        series == Series::B ==> (admits_spec(
            GroupId { root_system: RootSystem::B(r), form: GlobalForm::Quotient(CenterSubgroup::Z2) },
            a,
        ) <==> is_tensor_label(series, a)),
        series == Series::D ==> (admits_spec(
            GroupId {
                root_system: RootSystem::D(r),
                form: GlobalForm::Quotient(CenterSubgroup::DVector),
            },
            a,
        ) <==> is_tensor_label(series, a)),
        series == Series::D ==> (admits_spec(
            GroupId { root_system: RootSystem::D(r), form: GlobalForm::Quotient(CenterSubgroup::Z2) },
            a,
        ) <==> is_tensor_label(series, a)),
{
    assert(all_nonneg(a)) by {
        assert forall|i: int| 0 <= i < a.len() implies a[i] >= 0 by {
            assert(nonneg(a));
        }
    }
}

/// Taking the dual twice gives back the weight.
pub proof fn lemma_dual_involution(series: Series, w: Seq<i64>)
    requires
        weight_wf(series, w),
    ensures
        weight_wf(series, dual_weight(series, w)),
        dual_weight(series, dual_weight(series, w)) == w,
{
    assert(dual_weight(series, dual_weight(series, w)) =~= w);
}

/// A `B`, a `C`, or an even-rank `D` irrep is self-dual.
pub proof fn lemma_self_dual(series: Series, w: Seq<i64>)
    requires
        series != Series::D || w.len() % 2 == 0,
    ensures
        dual_weight(series, w) == w,
{
}

/// The Frobenius–Schur indicator is tied to duality: an irrep is complex
/// (indicator `0`) exactly when it differs from its dual, and otherwise its
/// indicator is `±1`, with `-1` (quaternionic) only for `Sp(2r)`. So every
/// `SO(2r+1)` irrep and every irrep of `D_r` with `r` even is real, and an
/// irrep and its dual have the same indicator.
pub proof fn lemma_frobenius_schur_duality(series: Series, w: Seq<i64>)
    requires
        weight_wf(series, w),
    ensures
        frobenius_schur_spec(series, w) == 0 <==> dual_weight(series, w) != w,
        frobenius_schur_spec(series, w) == 0 <==> (series == Series::D && w.len() % 2 == 1 && w[w.len()
            - 1] != 0),
        frobenius_schur_spec(series, w) == 1 || frobenius_schur_spec(series, w) == -1
            || frobenius_schur_spec(series, w) == 0,
        frobenius_schur_spec(series, w) == -1 ==> series == Series::C,
        series == Series::B ==> frobenius_schur_spec(series, w) == 1,
        series == Series::D && w.len() % 2 == 0 ==> frobenius_schur_spec(series, w) == 1,
        frobenius_schur_spec(series, dual_weight(series, w)) == frobenius_schur_spec(series, w),
{
    lemma_dual_involution(series, w);
    if series == Series::D && w.len() % 2 == 1 && w[w.len() - 1] != 0 {
        assert(dual_weight(series, w)[w.len() - 1] != w[w.len() - 1]);
    }
    if !(series == Series::D && w.len() % 2 == 1) || w[w.len() - 1] == 0 {
        assert(dual_weight(series, w) =~= w);
    }
    if series == Series::D && w.len() % 2 == 0 {
        assert(dual_weight(series, w) =~= w);
    }
    if dual_weight(series, w) == w {
        assert(dual_weight(series, dual_weight(series, w)) == dual_weight(series, w));
    } else {
        assert(dual_weight(series, dual_weight(series, w)) != dual_weight(series, w));
    }
}

/// In Dynkin labels, the dual of a `D_r` irrep with `r` odd swaps the last
/// two labels (the two spinor nodes), and every other dual is the irrep
/// itself.
pub proof fn lemma_dual_dynkin(series: Series, w: Seq<i64>)
    requires
        weight_wf(series, w),
    ensures
        ({
            let a = dynkin_spec(series, w);
            let b = dynkin_spec(series, dual_weight(series, w));
            let r = w.len() as int;
            if series == Series::D && r % 2 == 1 {
                b == a.update(r - 2, a[r - 1]).update(r - 1, a[r - 2])
            } else {
                b == a
            }
        }),
{
    let a = dynkin_spec(series, w);
    let b = dynkin_spec(series, dual_weight(series, w));
    let r = w.len() as int;
    if series == Series::D && r % 2 == 1 {
        assert(b =~= a.update(r - 2, a[r - 1]).update(r - 1, a[r - 2]));
    } else {
        assert(dual_weight(series, w) =~= w);
    }
}

/// Whether the partition of a valid label fits in `i64` ([`label_fits`]).
fn label_fits_check(series: Series, a: &[i64]) -> (b: bool)
    requires
        valid_label(series, a@),
    ensures
        b == label_fits(series, a@),
{
    let r = a.len();
    let m: usize = if series == Series::D {
        r - 2
    } else {
        r - 1
    };
    let mut sum: i64 = 0;
    let mut k: usize = 0;
    while k < m
        invariant
            valid_label(series, a@),
            r == a@.len(),
            m == (if series == Series::D {
                r - 2
            } else {
                r - 1
            }),
            k <= m,
            sum == range_sum(a@, 0, k as int),
        decreases m - k,
    {
        proof {
            lemma_range_sum_split(a@, 0, k as int, (k + 1) as int);
            lemma_range_sum_split(a@, 0, (k + 1) as int, m as int);
            lemma_range_sum_nonneg(a@, (k + 1) as int, m as int);
            assert(range_sum(a@, (k + 1) as int, (k + 1) as int) == 0);
            assert(range_sum(a@, k as int, (k + 1) as int) == a@[k as int]);
            assert(a@[r - 1] >= 0 && a@[r - 2] >= 0);
        }
        sum = match sum.checked_add(a[k]) {
            Some(x) => x,
            None => {
                proof {
                    assert(range_sum(a@, 0, m as int) > i64::MAX);
                    assert(partition_entry(series, a@, 0) >= range_sum(a@, 0, m as int));
                }
                return false;
            },
        };
        k = k + 1;
    }
    let tail: i64 = match series {
        Series::B => a[r - 1] / 2,
        Series::C => a[r - 1],
        Series::D => {
            let t = match a[r - 2].checked_add(a[r - 1]) {
                Some(t) => t,
                None => {
                    return false;
                },
            };
            t / 2
        },
    };
    match sum.checked_add(tail) {
        Some(_) => true,
        None => false,
    }
}

impl Irrep {
    /// Construct from the `r` integer Dynkin labels of `series` (`r =
    /// dynkin.len()`).
    ///
    /// Rejects: an empty label ([`BcdError::EmptyLabel`]); an excluded low rank
    /// ([`BcdError::ExcludedRank`], with redirection); a negative component
    /// ([`BcdError::NegativeDynkin`]); a spinor label
    /// ([`BcdError::SpinorLabel`]); a label whose partition does not fit in
    /// `i64` ([`BcdError::ArithmeticOverflow`]).
    pub fn from_dynkin(series: Series, dynkin: &[i64]) -> (res: Result<Self, BcdError>)
        ensures
            match res {
                Ok(x) => {
                    &&& valid_label(series, dynkin@)
                    &&& label_fits(series, dynkin@)
                    &&& x.series_spec() == series
                    &&& x.weight_spec() == partition_spec(series, dynkin@)
                },
                Err(BcdError::EmptyLabel) => dynkin@.len() == 0,
                Err(BcdError::ExcludedRank { series: s, rank, redirect }) => {
                    &&& 0 < dynkin@.len() < min_rank_spec(series)
                    &&& s == series
                    &&& rank == dynkin@.len()
                    &&& series == Series::D ==> redirect@ == "use SU(2)×SU(2) instead"@
                    &&& series != Series::D ==> redirect@ == "use SU(2) instead"@
                },
                Err(BcdError::NegativeDynkin { dynkin: d }) => {
                    &&& dynkin@.len() >= min_rank_spec(series)
                    &&& !nonneg(dynkin@)
                    &&& d@ == dynkin@
                },
                Err(BcdError::SpinorLabel { series: s, dynkin: d }) => {
                    &&& dynkin@.len() >= min_rank_spec(series)
                    &&& nonneg(dynkin@)
                    &&& !is_tensor_label(series, dynkin@)
                    &&& s == series
                    &&& d@ == dynkin@
                },
                Err(BcdError::ArithmeticOverflow) => {
                    &&& valid_label(series, dynkin@)
                    &&& !label_fits(series, dynkin@)
                },
                Err(_) => false,
            },
    {
        if dynkin.len() == 0 {
            return Err(BcdError::EmptyLabel);
        }
        let r = dynkin.len();
        if r < series.min_rank() {
            return Err(
                BcdError::ExcludedRank { series, rank: r, redirect: series.low_rank_redirect() },
            );
        }
        let mut i: usize = 0;
        while i < r
            invariant
                r == dynkin.len(),
                r >= min_rank_spec(series),
                i <= r,
                forall|j: int| 0 <= j < i ==> dynkin@[j] >= 0,
            decreases r - i,
        {
            if dynkin[i] < 0 {
                assert(!nonneg(dynkin@)) by {
                    assert(dynkin@[i as int] < 0);
                }
                return Err(BcdError::NegativeDynkin { dynkin: copy_label(dynkin) });
            }
            i = i + 1;
        }
        // Tensor-irrep (integer-partition) constraint; violation is a spinor.
        let spinor = match series {
            Series::B => dynkin[r - 1] % 2 != 0,
            Series::C => false,
            Series::D => dynkin[r - 2] % 2 != dynkin[r - 1] % 2,
        };
        if spinor {
            return Err(BcdError::SpinorLabel { series, dynkin: copy_label(dynkin) });
        }
        if !label_fits_check(series, dynkin) {
            return Err(BcdError::ArithmeticOverflow);
        }
        let weight = dynkin_to_partition(series, dynkin);
        proof {
            lemma_dynkin_of_partition(series, dynkin@);
        }
        Ok(Irrep { series, weight })
    }

    /// The trivial (vacuum) irrep of `series` at rank `r`: the zero weight.
    pub fn trivial(series: Series, r: usize) -> (res: Result<Self, BcdError>)
        ensures
            match res {
                Ok(x) => {
                    &&& r >= min_rank_spec(series)
                    &&& x.series_spec() == series
                    &&& x.weight_spec() == Seq::new(r as nat, |i: int| 0i64)
                },
                Err(BcdError::EmptyLabel) => r == 0,
                Err(BcdError::ExcludedRank { series: s, rank, redirect }) => {
                    &&& 0 < r < min_rank_spec(series)
                    &&& s == series
                    &&& rank == r
                    &&& series == Series::D ==> redirect@ == "use SU(2)×SU(2) instead"@
                    &&& series != Series::D ==> redirect@ == "use SU(2) instead"@
                },
                Err(_) => false,
            },
    {
        let mut zeros: Vec<i64> = Vec::new();
        let mut i: usize = 0;
        while i < r
            invariant
                i <= r,
                zeros@ == Seq::new(i as nat, |j: int| 0i64),
            decreases r - i,
        {
            zeros.push(0);
            i = i + 1;
            assert(zeros@ =~= Seq::new(i as nat, |j: int| 0i64));
        }
        proof {
            let z = zeros@;
            if z.len() >= 2 {
                assert(z[z.len() - 1] == 0 && z[z.len() - 2] == 0);
            }
            assert(nonneg(z));
            if valid_label(series, z) {
                lemma_range_sum_zero(z, 0, z.len() as int);
                if series != Series::D {
                    lemma_range_sum_zero(z, 0, z.len() - 1);
                } else {
                    lemma_range_sum_zero(z, 0, z.len() - 2);
                }
            }
        }
        let res = Self::from_dynkin(series, zeros.as_slice());
        proof {
            if res is Ok {
                let x = res->Ok_0;
                let z = zeros@;
                assert forall|i: int| 0 <= i < z.len() implies partition_spec(series, z)[i] == 0 by {
                    let top = if series == Series::D { z.len() - 2 } else { z.len() - 1 };
                    if i <= top {
                        lemma_range_sum_zero(z, i, top);
                    }
                }
                assert(x.weight_spec() =~= Seq::new(r as nat, |i: int| 0i64));
            }
        }
        res
    }

    /// The series (`B`, `C` or `D`).
    pub fn series(&self) -> (s: Series)
        ensures
            s == self.series_spec(),
    {
        self.series
    }

    /// The rank `r`.
    pub fn rank(&self) -> (r: usize)
        ensures
            r == self.weight_spec().len(),
    {
        self.weight.len()
    }

    /// The highest weight `λ` as an integer partition in the ε-basis.
    pub fn partition(&self) -> (p: &[i64])
        ensures
            p@ == self.weight_spec(),
    {
        self.weight.as_slice()
    }

    /// The `r` integer Dynkin labels.
    pub fn dynkin(&self) -> (a: Vec<i64>)
        ensures
            a@ == dynkin_spec(self.series_spec(), self.weight_spec()),
            valid_label(self.series_spec(), a@),
            label_fits(self.series_spec(), a@),
            partition_spec(self.series_spec(), a@) == self.weight_spec(),
    {
        proof {
            use_type_invariant(self);
            lemma_partition_of_dynkin(self.series, self.weight@);
        }
        partition_to_dynkin(self.series, self.weight.as_slice())
    }

    /// The dual (complex-conjugate) irrep, with highest weight `-w₀(λ)`.
    ///
    /// `B_r`, `C_r`, and `D_r` with `r` even: every tensor irrep is self-dual.
    /// `D_r` with `r` odd: `λ_r ↦ -λ_r` (equivalently, swap the last two
    /// Dynkin labels), the chirality flip.
    pub fn dual(&self) -> (d: Irrep)
        ensures
            d.series_spec() == self.series_spec(),
            d.weight_spec() == dual_weight(self.series_spec(), self.weight_spec()),
    {
        proof {
            use_type_invariant(self);
            lemma_dual_involution(self.series, self.weight@);
        }
        let mut w = copy_label(self.weight.as_slice());
        let r = w.len();
        if self.series == Series::D && r % 2 == 1 {
            let last = r - 1;
            let v = w[last];
            w.set(last, -v);
        }
        assert(w@ =~= dual_weight(self.series, self.weight@));
        Irrep { series: self.series, weight: w }
    }

    /// The Frobenius–Schur indicator: `+1` real, `-1` quaternionic, `0`
    /// complex.
    ///
    /// `B`: every tensor irrep is real. `D`: real when self-dual, complex
    /// otherwise (`D_r`, `r` odd, `λ_r ≠ 0`). `C`: quaternionic iff `Σ λᵢ` is
    /// odd.
    pub fn frobenius_schur(&self) -> (fs: i32)
        ensures
            fs == frobenius_schur_spec(self.series_spec(), self.weight_spec()),
    {
        proof {
            use_type_invariant(self);
        }
        let r = self.weight.len();
        match self.series {
            Series::B => 1,
            Series::D => {
                let ghost w = self.weight@;
                if r % 2 == 0 || self.weight[r - 1] == 0 {
                    assert(dual_weight(self.series, w) =~= w);
                    1
                } else {
                    assert(dual_weight(self.series, w)[r - 1] != w[r - 1]);
                    0
                }
            },
            Series::C => {
                let mut odd = false;
                let mut i: usize = 0;
                while i < r
                    invariant
                        r == self.weight@.len(),
                        i <= r,
                        forall|j: int| 0 <= j < r ==> self.weight@[j] >= 0,
                        odd == (range_sum(self.weight@, 0, i as int) % 2 != 0),
                    decreases r - i,
                {
                    proof {
                        lemma_range_sum_split(self.weight@, 0, i as int, i + 1);
                        assert(range_sum(self.weight@, i + 1, i + 1) == 0);
                        lemma_parity_add(range_sum(self.weight@, 0, i as int), self.weight@[i as int] as int);
                    }
                    odd = odd != (self.weight[i] % 2 != 0);
                    i = i + 1;
                }
                if odd {
                    -1
                } else {
                    1
                }
            },
        }
    }
}

proof fn lemma_parity_add(s: int, x: int)
    ensures
        ((s + x) % 2 != 0) == ((s % 2 != 0) != (x % 2 != 0)),
{
}

/// Halving the sum and difference of two integers of equal parity.
proof fn lemma_half_sum_diff(x: int, y: int)
    requires
        (x + y) % 2 == 0,
    ensures
        (x - y) % 2 == 0,
        (x + y) / 2 + (x - y) / 2 == x,
        (x + y) / 2 - (x - y) / 2 == y,
{
}

proof fn lemma_range_sum_zero(a: Seq<i64>, i: int, j: int)
    requires
        0 <= i,
        j <= a.len(),
        forall|k: int| 0 <= k < a.len() ==> a[k] == 0,
    ensures
        range_sum(a, i, j) == 0,
    decreases j - i,
{
    if i < j {
        lemma_range_sum_zero(a, i + 1, j);
    }
}


// ---- dominant weights -------------------------------------------------------------

/// Whether `mu` is a dominant weight of `series`: non-increasing and
/// non-negative (`B`, `C`), or non-increasing up to `μ_{r-1} ≥ |μ_r|` (`D`).
pub open spec fn is_dominant(series: Series, mu: Seq<i64>) -> bool {
    let r = mu.len() as int;
    match series {
        Series::B | Series::C => {
            &&& forall|i: int, j: int| 0 <= i <= j < r ==> mu[i] >= mu[j]
            &&& forall|i: int| 0 <= i < r ==> mu[i] >= 0
        },
        Series::D => {
            &&& forall|i: int, j: int| 0 <= i <= j < r - 1 ==> mu[i] >= mu[j]
            &&& forall|i: int| 0 <= i < r - 1 ==> mu[i] >= 0
            &&& mu[r - 2] >= mu[r - 1]
            &&& mu[r - 2] >= -mu[r - 1]
        },
    }
}

/// `a - b`, coordinatewise.
pub open spec fn sub_spec(a: Seq<i64>, b: Seq<i64>) -> Seq<i64> {
    Seq::new(a.len(), |i: int| (a[i] - b[i]) as i64)
}

/// Whether `mu` is a dominant weight in the box `|μ_i| ≤ hi` with `λ − μ` a
/// non-negative combination of simple roots.
pub open spec fn dominant_below(series: Series, lam: Seq<i64>, hi: int, mu: Seq<i64>) -> bool {
    &&& mu.len() == lam.len()
    &&& is_dominant(series, mu)
    &&& bounded(mu, hi)
    &&& in_positive_root_cone(series, sub_spec(lam, mu))
}

/// Whether every vector of `s` is [`dominant_below`] `lam`.
pub open spec fn all_dominant_below(series: Series, lam: Seq<i64>, hi: int, s: Seq<Vec<i64>>) -> bool {
    forall|k: int| 0 <= k < s.len() ==> dominant_below(series, lam, hi, #[trigger] s[k]@)
}

/// The first `pos` coordinates of `cur` can start a dominant weight in the
/// box `|μ_i| ≤ hi`.
pub open spec fn dominant_prefix(series: Series, cur: Seq<i64>, pos: int, hi: int) -> bool {
    let r = cur.len() as int;
    &&& forall|i: int| 0 <= i < pos ==> -hi <= #[trigger] cur[i] <= hi
    &&& forall|i: int, j: int|
        0 <= i <= j < pos && (series != Series::D || j < r - 1) ==> cur[i] >= cur[j]
    &&& forall|i: int| 0 <= i < pos && (series != Series::D || i < r - 1) ==> #[trigger] cur[i] >= 0
    &&& series == Series::D && pos == r ==> cur[r - 2] >= cur[r - 1] && cur[r - 2] >= -cur[r - 1]
}

/// `a - b` for vectors whose difference stays within `4 · WEIGHT_BOUND`.
fn sub_vec(a: &[i64], b: &[i64]) -> (d: Vec<i64>)
    requires
        a@.len() == b@.len(),
        bounded(a@, 2 * WEIGHT_BOUND),
        bounded(b@, 2 * WEIGHT_BOUND),
    ensures
        d@ == sub_spec(a@, b@),
        bounded(d@, 4 * WEIGHT_BOUND),
{
    let mut d: Vec<i64> = Vec::new();
    let mut i: usize = 0;
    while i < a.len()
        invariant
            a@.len() == b@.len(),
            bounded(a@, 2 * WEIGHT_BOUND),
            bounded(b@, 2 * WEIGHT_BOUND),
            i <= a@.len(),
            d@ == sub_spec(a@, b@).subrange(0, i as int),
        decreases a@.len() - i,
    {
        d.push(a[i] - b[i]);
        i = i + 1;
        assert(d@ =~= sub_spec(a@, b@).subrange(0, i as int));
    }
    assert(d@ =~= sub_spec(a@, b@));
    d
}

/// Enumerate the dominant weights below `lam` whose first `pos` coordinates
/// are those of `cur`, appending them to `out`.
fn enum_dom_rec(
    series: Series,
    lam: &[i64],
    hi: i64,
    pos: usize,
    cur: &mut Vec<i64>,
    out: &mut Vec<Vec<i64>>,
)
    requires
        old(cur)@.len() == lam@.len(),
        2 <= lam@.len() <= RANK_BOUND,
        0 <= hi <= WEIGHT_BOUND,
        bounded(lam@, WEIGHT_BOUND as int),
        pos <= lam@.len(),
        dominant_prefix(series, old(cur)@, pos as int, hi as int),
        all_dominant_below(series, lam@, hi as int, old(out)@),
    ensures
        final(cur)@.len() == lam@.len(),
        forall|t: int| 0 <= t < pos ==> final(cur)@[t] == old(cur)@[t],
        all_dominant_below(series, lam@, hi as int, final(out)@),
        extends(old(out)@, final(out)@),
        forall|mu: Seq<i64>|
            mu.len() == lam@.len() && mu.subrange(0, pos as int) == old(cur)@.subrange(0, pos as int)
                && dominant_below(series, lam@, hi as int, mu) ==> #[trigger] holds_vec(
                final(out)@,
                mu,
            ),
    decreases lam@.len() - pos,
{
    let r = cur.len();
    let ghost out0 = out@;
    let ghost cur0 = cur@;
    if pos == r {
        assert(is_dominant(series, cur@));
        assert(bounded(cur@, hi as int));
        let d = sub_vec(lam, cur.as_slice());
        if simple_root_coeffs(series, d.as_slice()).is_some() {
            let w = copy_vec(cur.as_slice());
            out.push(w);
            assert(out@[out@.len() - 1]@ == cur0);
        }
        assert forall|mu: Seq<i64>|
            mu.len() == lam@.len() && mu.subrange(0, pos as int) == cur0.subrange(0, pos as int)
                && dominant_below(series, lam@, hi as int, mu) implies #[trigger] holds_vec(out@, mu) by {
            assert(mu =~= mu.subrange(0, pos as int));
            assert(cur0 =~= cur0.subrange(0, pos as int));
            assert(sub_spec(lam@, cur0) == d@);
            assert(out@[out@.len() - 1]@ == mu);
        }
        return;
    }
    // Dominant: μ_pos ≤ μ_{pos-1} (and ≤ hi); for D the last slot also allows
    // negatives down to -μ_{r-2} (chirality); for B/C the floor is 0.
    let upper = if pos == 0 {
        hi
    } else {
        cur[pos - 1]
    };
    let lower = if series == Series::D && pos == r - 1 {
        -cur[pos - 1]
    } else {
        0
    };
    let ghost start = cur@;
    let mut v = upper;
    while v >= lower
        invariant
            r == cur@.len() == lam@.len(),
            2 <= r <= RANK_BOUND,
            0 <= hi <= WEIGHT_BOUND,
            bounded(lam@, WEIGHT_BOUND as int),
            pos < r,
            start.len() == r,
            dominant_prefix(series, start, pos as int, hi as int),
            forall|t: int| 0 <= t < pos ==> cur@[t] == start[t],
            upper == if pos == 0 {
                hi
            } else {
                start[pos - 1]
            },
            lower == if series == Series::D && pos == r - 1 {
                -start[pos - 1]
            } else {
                0
            },
            -hi <= lower,
            v <= upper,
            lower - 1 <= v,
            all_dominant_below(series, lam@, hi as int, out@),
            start == cur0,
            extends(out0, out@),
            forall|mu: Seq<i64>|
                mu.len() == lam@.len() && mu.subrange(0, pos as int) == start.subrange(0, pos as int)
                    && v < mu[pos as int] <= upper && dominant_below(series, lam@, hi as int, mu)
                    ==> #[trigger] holds_vec(out@, mu),
        decreases v - lower + 1,
    {
        let ghost out1 = out@;
        cur.set(pos, v);
        let ghost cur1 = cur@;
        proof {
            assert(cur@[pos as int] == v);
            if pos > 0 {
                assert(-hi <= start[pos - 1] <= hi);
            }
            assert forall|i: int, j: int|
                0 <= i <= j < pos + 1 && (series != Series::D || j < r - 1) implies cur@[i]
                >= cur@[j] by {
                if j == pos && i < pos {
                    assert(start[i] >= start[pos - 1]);
                    assert(cur@[i] == start[i]);
                } else if j < pos {
                    assert(start[i] >= start[j]);
                    assert(cur@[i] == start[i]);
                    assert(cur@[j] == start[j]);
                }
            }
            assert forall|i: int| 0 <= i < pos + 1 implies -hi <= #[trigger] cur@[i] <= hi by {
                if i < pos {
                    assert(-hi <= start[i] <= hi);
                }
            }
            assert forall|i: int|
                0 <= i < pos + 1 && (series != Series::D || i < r - 1) implies #[trigger] cur@[i]
                >= 0 by {
                if i < pos {
                    assert(start[i] >= 0);
                }
            }
        }
        enum_dom_rec(series, lam, hi, pos + 1, cur, out);
        proof {
            lemma_extends_trans(out0, out1, out@);
            assert forall|mu: Seq<i64>|
                mu.len() == lam@.len() && mu.subrange(0, pos as int) == start.subrange(0, pos as int)
                    && v - 1 < mu[pos as int] <= upper && dominant_below(series, lam@, hi as int, mu)
                    implies #[trigger] holds_vec(out@, mu) by {
                if mu[pos as int] == v {
                    assert(mu.subrange(0, pos + 1) =~= cur1.subrange(0, pos + 1));
                } else {
                    lemma_holds_extends(out1, out@, mu);
                }
            }
        }
        v = v - 1;
    }
    proof {
        assert forall|mu: Seq<i64>|
            mu.len() == lam@.len() && mu.subrange(0, pos as int) == cur0.subrange(0, pos as int)
                && dominant_below(series, lam@, hi as int, mu) implies #[trigger] holds_vec(out@, mu) by {
            if pos > 0 {
                assert(mu[pos - 1] == mu.subrange(0, pos as int)[pos - 1]);
                assert(mu[pos - 1] == start[pos - 1]);
            }
            assert(mu[pos as int] <= upper);
            assert(lower <= mu[pos as int]);
        }
    }
}

/// All dominant weights `μ` with `|μ_i| ≤ λ₁` and `λ − μ` a non-negative
/// combination of simple roots, by enumerating a box of dominant weights.
fn enumerate_dominant_below(series: Series, lam: &[i64]) -> (doms: Vec<Vec<i64>>)
    requires
        weight_wf(series, lam@),
        lam@.len() <= RANK_BOUND,
        bounded(lam@, WEIGHT_BOUND as int),
    ensures
        all_dominant_below(series, lam@, lam@[0] as int, doms@),
        forall|mu: Seq<i64>|
            dominant_below(series, lam@, lam@[0] as int, mu) ==> #[trigger] holds_vec(doms@, mu),
{
    let r = lam.len();
    // μ ≤ λ ⇒ μ₁ ≤ λ₁; all |μ_i| ≤ λ₁.
    let hi = lam[0];
    let mut out: Vec<Vec<i64>> = Vec::new();
    let mut cur: Vec<i64> = Vec::new();
    let mut t: usize = 0;
    while t < r
        invariant
            t <= r,
            cur@.len() == t,
        decreases r - t,
    {
        cur.push(0);
        t = t + 1;
    }
    let ghost cur0 = cur@;
    enum_dom_rec(series, lam, hi, 0, &mut cur, &mut out);
    proof {
        assert forall|mu: Seq<i64>| dominant_below(series, lam@, lam@[0] as int, mu) implies #[trigger] holds_vec(
            out@,
            mu,
        ) by {
            assert(mu.subrange(0, 0) =~= cur0.subrange(0, 0));
        }
    }
    out
}

// ---- Freudenthal weight multiplicities ---------------------------------------------

/// Whether `m` is a table of dominant-weight multiplicities of the irrep with
/// highest weight `lam`: the highest weight first with multiplicity `1`, then
/// distinct dominant weights below `lam`, each with a positive multiplicity.
pub open spec fn multiplicities_wf(series: Series, lam: Seq<i64>, m: Seq<(Vec<i64>, u64)>) -> bool {
    &&& m.len() >= 1
    &&& m[0].0@ == lam
    &&& m[0].1 == 1
    &&& forall|k: int|
        0 <= k < m.len() ==> {
            &&& dominant_below(series, lam, lam[0] as int, #[trigger] m[k].0@)
            &&& m[k].1 >= 1
        }
    &&& forall|a: int, b: int| 0 <= a < b < m.len() ==> #[trigger] m[a].0@ != #[trigger] m[b].0@
}

/// The sum of the first `n` simple-root coefficients of `d`.
pub open spec fn coeff_sum(series: Series, d: Seq<i64>, n: int) -> int
    decreases n,
{
    if n <= 0 {
        0
    } else {
        coeff_sum(series, d, n - 1) + simple_coeff(series, d, n - 1)
    }
}

/// The depth of `μ` below `λ`: the height of `λ − μ` in the simple roots.
pub open spec fn depth_spec(series: Series, lam: Seq<i64>, mu: Seq<i64>) -> int {
    coeff_sum(series, sub_spec(lam, mu), lam.len() as int)
}

/// [`depth_spec`] as a natural number (`0` where it is negative).
pub open spec fn depth_nat(series: Series, lam: Seq<i64>, mu: Seq<i64>) -> nat {
    let d = depth_spec(series, lam, mu);
    if d >= 0 {
        d as nat
    } else {
        0
    }
}

/// `⟨w,w⟩ + ⟨w,2ρ⟩`, the part of `⟨w+ρ,w+ρ⟩` that depends on `w`.
pub open spec fn casimir_spec(series: Series, w: Seq<i64>) -> int {
    dot_spec(w, w) + dot_spec(w, two_rho_seq(series, w.len() as int))
}

/// `μ + kα`.
pub open spec fn shift_spec(mu: Seq<i64>, alpha: Seq<i64>, k: int) -> Seq<i64> {
    Seq::new(mu.len(), |i: int| (mu[i] + k * alpha[i]) as i64)
}

/// The longest `α`-string the Freudenthal sum follows from a weight below
/// `λ`: past `2λ₁ + 2` steps a coordinate leaves the weight box.
pub open spec fn string_bound(lam: Seq<i64>) -> int {
    2 * lam[0] + 2
}

/// The Freudenthal multiplicity `m_λ(μ)` of a dominant weight `μ` below `λ`
/// (`0` outside them): `m_λ(λ) = 1`, and otherwise
/// `m_λ(μ) · (⟨λ+ρ,λ+ρ⟩ − ⟨μ+ρ,μ+ρ⟩) = 2 Σ_{α>0} Σ_{k≥1} m_λ(μ+kα) ⟨μ+kα, α⟩`,
/// where `m_λ(ν)` is read at the dominant representative of `ν`, from the
/// weights of smaller depth, and each `α`-string is followed until its
/// first weight of multiplicity `0`.
pub open spec fn freudenthal_mult(series: Series, lam: Seq<i64>, mu: Seq<i64>) -> int
    decreases depth_nat(series, lam, mu), 3int, 0int,
{
    if !dominant_below(series, lam, lam[0] as int, mu) {
        0
    } else if mu == lam {
        1
    } else {
        let den = casimir_spec(series, lam) - casimir_spec(series, mu);
        if den <= 0 {
            0
        } else {
            freudenthal_roots(series, lam, mu, 0) / den
        }
    }
}

/// `Σ_{α ∈ roots[i..]}` of the `α`-string sums of [`freudenthal_mult`].
pub open spec fn freudenthal_roots(series: Series, lam: Seq<i64>, mu: Seq<i64>, i: int) -> int
    decreases depth_nat(series, lam, mu), 2int, positive_roots_spec(series, lam.len() as int).len() - i,
{
    let roots = positive_roots_spec(series, lam.len() as int);
    if i < 0 || i >= roots.len() {
        0
    } else {
        freudenthal_string(series, lam, mu, roots[i], 1) + freudenthal_roots(series, lam, mu, i + 1)
    }
}

/// `Σ_{j ≥ k} 2 m_λ(μ+jα) (⟨α,μ⟩ + j⟨α,α⟩)` along the `α`-string from `μ + kα`,
/// stopping at the first weight of multiplicity `0`.
pub open spec fn freudenthal_string(
    series: Series,
    lam: Seq<i64>,
    mu: Seq<i64>,
    alpha: Seq<i64>,
    k: int,
) -> int
    decreases depth_nat(series, lam, mu), 1int, string_bound(lam) + 1 - k,
{
    if k < 1 || k > string_bound(lam) {
        0
    } else {
        let m = freudenthal_known(series, lam, mu, weyl_dominant_spec(series, shift_spec(mu, alpha, k)));
        if m == 0 {
            0
        } else {
            2 * (dot_spec(alpha, mu) + k * dot_spec(alpha, alpha)) * m + freudenthal_string(
                series,
                lam,
                mu,
                alpha,
                k + 1,
            )
        }
    }
}

/// The multiplicity of `ν` as known when `μ` is computed: `m_λ(ν)` if `ν` is
/// a dominant weight below `λ` of smaller depth than `μ` with a positive
/// multiplicity, else `0`.
pub open spec fn freudenthal_known(series: Series, lam: Seq<i64>, mu: Seq<i64>, nu: Seq<i64>) -> int
    decreases depth_nat(series, lam, mu), 0int, 0int,
{
    if dominant_below(series, lam, lam[0] as int, nu) && 0 <= depth_spec(series, lam, nu)
        < depth_spec(series, lam, mu) {
        let m = freudenthal_mult(series, lam, nu);
        if m > 0 {
            m
        } else {
            0
        }
    } else {
        0
    }
}

/// The multiplicity table `m` lists exactly the dominant weights of positive
/// Freudenthal multiplicity, each with that multiplicity.
pub open spec fn multiplicities_exact(series: Series, lam: Seq<i64>, m: Seq<(Vec<i64>, u64)>) -> bool {
    &&& forall|k: int| 0 <= k < m.len() ==> (#[trigger] m[k]).1 == freudenthal_mult(series, lam, m[k].0@)
    &&& forall|mu: Seq<i64>|
        freudenthal_mult(series, lam, mu) > 0 ==> exists|k: int| 0 <= k < m.len() && (#[trigger] m[k]).0@ == mu
}

/// A sum of non-negative simple-root coefficients is non-negative, and zero
/// only when each coefficient is.
proof fn lemma_coeff_sum_nonneg(series: Series, d: Seq<i64>, n: int)
    requires
        0 <= n <= d.len(),
        forall|i: int| 0 <= i < n ==> simple_coeff(series, d, i) >= 0,
    ensures
        coeff_sum(series, d, n) >= 0,
        coeff_sum(series, d, n) == 0 ==> forall|i: int| 0 <= i < n ==> simple_coeff(series, d, i) == 0,
    decreases n,
{
    if n > 0 {
        lemma_coeff_sum_nonneg(series, d, n - 1);
    }
}

/// A weight below `λ` has a non-negative depth.
proof fn lemma_depth_nonneg(series: Series, lam: Seq<i64>, mu: Seq<i64>)
    requires
        dominant_below(series, lam, lam[0] as int, mu),
    ensures
        depth_spec(series, lam, mu) >= 0,
{
    lemma_coeff_sum_nonneg(series, sub_spec(lam, mu), lam.len() as int);
}

/// `λ` has depth `0`.
proof fn lemma_depth_top(series: Series, lam: Seq<i64>)
    requires
        lam.len() >= 2,
    ensures
        depth_spec(series, lam, lam) == 0,
{
    let z = sub_spec(lam, lam);
    let r = lam.len() as int;
    assert forall|i: int| 0 <= i <= r implies crate::weyl::prefix_sum(z, i) == 0 by {
        lemma_prefix_sum_zero(z, i);
    }
    assert forall|i: int| 0 <= i < r implies simple_coeff(series, z, i) == 0 by {
        assert(crate::weyl::prefix_sum(z, i + 1) == 0);
        assert(crate::weyl::prefix_sum(z, r) == 0);
    }
    lemma_coeff_sum_nonneg(series, z, r);
    lemma_coeff_sum_zero(series, z, r);
}

proof fn lemma_coeff_sum_zero(series: Series, d: Seq<i64>, n: int)
    requires
        0 <= n <= d.len(),
        forall|i: int| 0 <= i < n ==> simple_coeff(series, d, i) == 0,
    ensures
        coeff_sum(series, d, n) == 0,
    decreases n,
{
    if n > 0 {
        lemma_coeff_sum_zero(series, d, n - 1);
    }
}

/// Prefix sums that all vanish come from the zero vector.
proof fn lemma_prefix_zero_entries(d: Seq<i64>)
    requires
        forall|i: int| 0 <= i <= d.len() ==> #[trigger] crate::weyl::prefix_sum(d, i) == 0,
    ensures
        forall|i: int| 0 <= i < d.len() ==> d[i] == 0,
{
    assert forall|i: int| 0 <= i < d.len() implies d[i] == 0 by {
        assert(crate::weyl::prefix_sum(d, i + 1) == crate::weyl::prefix_sum(d, i) + d[i]);
    }
}

/// The only weight of depth `0` below `λ` is `λ` itself.
proof fn lemma_depth_zero_is_top(series: Series, lam: Seq<i64>, mu: Seq<i64>)
    requires
        dominant_below(series, lam, lam[0] as int, mu),
        depth_spec(series, lam, mu) == 0,
        lam.len() >= 2,
        bounded(lam, WEIGHT_BOUND as int),
        lam[0] <= WEIGHT_BOUND,
    ensures
        mu == lam,
{
    let d = sub_spec(lam, mu);
    let r = lam.len() as int;
    lemma_coeff_sum_nonneg(series, d, r);
    let total = crate::weyl::prefix_sum(d, r);
    assert(simple_coeff(series, d, r - 1) == 0);
    if series == Series::D {
        assert(simple_coeff(series, d, r - 2) == 0);
        assert(total / 2 == 0);
        assert(total % 2 == 0);
        assert(total == 0);
        assert(d[r - 1] == 0);
    } else if series == Series::C {
        assert(total % 2 == 0);
        assert(total == 0);
    }
    assert forall|i: int| 0 <= i <= r implies #[trigger] crate::weyl::prefix_sum(d, i) == 0 by {
        if i == 0 {
        } else if i == r {
        } else if series == Series::D && i == r - 1 {
            assert(crate::weyl::prefix_sum(d, r) == crate::weyl::prefix_sum(d, r - 1) + d[r - 1]);
        } else {
            assert(simple_coeff(series, d, i - 1) == 0);
        }
    }
    lemma_prefix_zero_entries(d);
    assert forall|i: int| 0 <= i < r implies mu[i] == lam[i] by {
        assert(d[i] == 0);
        assert(-lam[0] <= mu[i] <= lam[0]);
    }
    assert(mu =~= lam);
}

/// A positive root pairs non-negatively with a dominant weight, and
/// positively with itself.
proof fn lemma_root_pairing(series: Series, mu: Seq<i64>, alpha: Seq<i64>)
    requires
        mu.len() >= 2,
        is_dominant(series, mu),
        is_positive_root(series, mu.len() as int, alpha),
    ensures
        dot_spec(alpha, mu) >= 0,
        dot_spec(alpha, alpha) >= 1,
{
    let r = mu.len() as int;
    if exists|i: int, j: int| 0 <= i < j < r && alpha == #[trigger] root_vec(r, i, j, 1, -1) {
        let (i, j) = choose|i: int, j: int| 0 <= i < j < r && alpha == #[trigger] root_vec(r, i, j, 1, -1);
        lemma_dot_root_vec(mu, r, i, j, 1, -1);
        lemma_dot_root_vec(alpha, r, i, j, 1, -1);
        if series == Series::D && j == r - 1 {
            assert(mu[i] >= mu[r - 2]);
        }
    } else if exists|i: int, j: int| 0 <= i < j < r && alpha == #[trigger] root_vec(r, i, j, 1, 1) {
        let (i, j) = choose|i: int, j: int| 0 <= i < j < r && alpha == #[trigger] root_vec(r, i, j, 1, 1);
        lemma_dot_root_vec(mu, r, i, j, 1, 1);
        lemma_dot_root_vec(alpha, r, i, j, 1, 1);
        if series == Series::D && j == r - 1 {
            assert(mu[i] >= mu[r - 2]);
        }
    } else if series == Series::B {
        let i = choose|i: int| 0 <= i < r && alpha == #[trigger] root_vec(r, i, i, 1, 1);
        lemma_dot_root_vec(mu, r, i, i, 1, 1);
        lemma_dot_root_vec(alpha, r, i, i, 1, 1);
    } else {
        let i = choose|i: int| 0 <= i < r && alpha == #[trigger] root_vec(r, i, i, 2, 2);
        lemma_dot_root_vec(mu, r, i, i, 2, 2);
        lemma_dot_root_vec(alpha, r, i, i, 2, 2);
    }
}

/// `⟨w,w⟩ + ⟨w,2ρ⟩`: the part of `⟨w+ρ,w+ρ⟩` that depends on `w`.
fn casimir(w: &[i64], two_rho: &[i64]) -> (c: i128)
    requires
        w@.len() == two_rho@.len() <= RANK_BOUND,
        bounded(w@, WEIGHT_BOUND as int),
        bounded(two_rho@, 2 * RANK_BOUND),
    ensures
        -0x1_0000_0000_0000_0000 <= c <= 0x1_0000_0000_0000_0000,
        c == dot_spec(w@, w@) + dot_spec(w@, two_rho@),
{
    let a = dot(w, w) as i128;
    let b = dot(w, two_rho) as i128;
    a + b
}

/// The stored multiplicity of the dominant weight `w`, if any.
fn lookup_mult(keys: &Vec<Vec<i64>>, vals: &Vec<u64>, w: &[i64]) -> (m: Option<u64>)
    requires
        keys@.len() == vals@.len(),
    ensures
        match m {
            Some(v) => exists|p: int| 0 <= p < keys@.len() && #[trigger] keys@[p]@ == w@ && v == vals@[p],
            None => !holds_vec(keys@, w@),
        },
{
    match position_of(keys, w) {
        Some(p) => Some(vals[p]),
        None => None,
    }
}

/// The multiplicity table `keys ↦ vals` holds, at depth round `d`, exactly
/// the dominant weights below `λ` of depth less than `d` (and `λ`) with a
/// positive Freudenthal multiplicity, each with that multiplicity.
spec fn table_exact(series: Series, lam: Seq<i64>, keys: Seq<Vec<i64>>, vals: Seq<u64>, d: int) -> bool {
    &&& keys.len() == vals.len()
    &&& forall|k: int|
        0 <= k < keys.len() ==> {
            &&& vals[k] == freudenthal_mult(series, lam, (#[trigger] keys[k])@)
            &&& vals[k] > 0
            &&& (keys[k]@ == lam || 0 <= depth_spec(series, lam, keys[k]@) < d)
        }
    &&& forall|mu: Seq<i64>|
        dominant_below(series, lam, lam[0] as int, mu) && 0 <= depth_spec(series, lam, mu) < d
            && freudenthal_mult(series, lam, mu) > 0 ==> #[trigger] holds_vec(keys, mu)
}

/// What the table returns for `ν` is the multiplicity known when `μ`, of
/// depth `d`, is computed.
proof fn lemma_known_lookup(
    series: Series,
    lam: Seq<i64>,
    keys: Seq<Vec<i64>>,
    vals: Seq<u64>,
    d: int,
    mu: Seq<i64>,
    nu: Seq<i64>,
    found: Option<u64>,
)
    requires
        lam.len() >= 2,
        table_exact(series, lam, keys, vals, d),
        table_wf(series, lam, keys, vals),
        depth_spec(series, lam, mu) == d,
        d >= 1,
        match found {
            Some(v) => exists|p: int| 0 <= p < keys.len() && #[trigger] keys[p]@ == nu && v == vals[p],
            None => !holds_vec(keys, nu),
        },
    ensures
        (match found {
            Some(v) => v as int,
            None => 0,
        }) == freudenthal_known(series, lam, mu, nu),
{
    lemma_depth_top(series, lam);
    match found {
        Some(v) => {
            let p = choose|p: int| 0 <= p < keys.len() && #[trigger] keys[p]@ == nu && v == vals[p];
            assert(vals[p] == freudenthal_mult(series, lam, keys[p]@));
            assert(dominant_below(series, lam, lam[0] as int, keys[p]@));
        },
        None => {
            if dominant_below(series, lam, lam[0] as int, nu) && 0 <= depth_spec(series, lam, nu) < d
                && freudenthal_mult(series, lam, nu) > 0 {
                assert(holds_vec(keys, nu));
            }
        },
    }
}

/// A sum of simple-root coefficients in `[0, 2^37]` lies in `[0, n · 2^37]`.
proof fn lemma_coeff_sum_bound(series: Series, d: Seq<i64>, n: int)
    requires
        0 <= n <= d.len(),
        forall|i: int| 0 <= i < n ==> 0 <= #[trigger] simple_coeff(series, d, i) <= 0x20_0000_0000,
    ensures
        0 <= coeff_sum(series, d, n) <= n * 0x20_0000_0000,
    decreases n,
{
    if n > 0 {
        lemma_coeff_sum_bound(series, d, n - 1);
    }
}

/// The depth of a weight below `λ`: the sum of the simple-root coefficients of
/// `λ − μ`. For weights in the box `|x| ≤ 2^24` it always fits in `i64`.
fn weight_depth(series: Series, lambda: &[i64], mu: &[i64]) -> (res: Option<i64>)
    requires
        2 <= lambda@.len() <= RANK_BOUND,
        bounded(lambda@, WEIGHT_BOUND as int),
        dominant_below(series, lambda@, lambda@[0] as int, mu@),
        lambda@[0] <= WEIGHT_BOUND,
    ensures
        res matches Some(x) && x == depth_spec(series, lambda@, mu@),
        0 <= depth_spec(series, lambda@, mu@) <= 0x8000_0000_0000,
{
    let d = sub_vec(lambda, mu);
    proof {
        let r = lambda@.len() as int;
        assert forall|i: int| 0 <= i < r implies 0 <= #[trigger] simple_coeff(series, d@, i)
            <= 0x20_0000_0000 by {
            lemma_simple_coeff_bound(series, d@, i);
        }
        lemma_coeff_sum_bound(series, d@, r);
        assert(r * 0x20_0000_0000 <= 0x8000_0000_0000) by (nonlinear_arith)
            requires
                r <= 1024,
        ;
    }
    match simple_root_coeffs(series, d.as_slice()) {
        Some(c) => {
            let mut sum: i64 = 0;
            let mut k: usize = 0;
            while k < c.len()
                invariant
                    k <= c@.len(),
                    c@.len() == d@.len() == lambda@.len(),
                    forall|i: int| 0 <= i < d@.len() ==> c@[i] == simple_coeff(series, d@, i),
                    d@ == sub_spec(lambda@, mu@),
                    sum == coeff_sum(series, d@, k as int),
                    forall|i: int|
                        0 <= i < d@.len() ==> 0 <= #[trigger] simple_coeff(series, d@, i)
                            <= 0x20_0000_0000,
                    d@.len() <= 1024,
                decreases c@.len() - k,
            {
                proof {
                    lemma_coeff_sum_bound(series, d@, (k + 1) as int);
                    assert((k + 1) * 0x20_0000_0000 <= 0x8000_0000_0000) by (nonlinear_arith)
                        requires
                            k + 1 <= 1024,
                    ;
                }
                sum = match sum.checked_add(c[k]) {
                    Some(x) => x,
                    None => return None,
                };
                k = k + 1;
            }
            Some(sum)
        },
        None => None,
    }
}

/// An `α`-string sum of the Freudenthal recursion is non-negative when
/// `⟨α,μ⟩ ≥ 0` and `⟨α,α⟩ ≥ 1`.
proof fn lemma_string_nonneg(series: Series, lam: Seq<i64>, mu: Seq<i64>, alpha: Seq<i64>, k: int)
    requires
        dot_spec(alpha, mu) >= 0,
        dot_spec(alpha, alpha) >= 1,
        k >= 1,
    ensures
        freudenthal_string(series, lam, mu, alpha, k) >= 0,
    decreases string_bound(lam) + 1 - k,
{
    if k <= string_bound(lam) {
        lemma_string_nonneg(series, lam, mu, alpha, k + 1);
        let m = freudenthal_known(
            series,
            lam,
            mu,
            weyl_dominant_spec(series, shift_spec(mu, alpha, k)),
        );
        let a = dot_spec(alpha, mu);
        let b = dot_spec(alpha, alpha);
        assert(m >= 0);
        assert(2 * (a + k * b) * m >= 0) by (nonlinear_arith)
            requires
                a >= 0,
                b >= 1,
                k >= 1,
                m >= 0,
        ;
    }
}

/// The `α`-string sum [`freudenthal_string`] from `μ + α`, read from the
/// table of the weights of smaller depth; `None` exactly when it exceeds the
/// `i128` range.
fn string_sum(
    series: Series,
    lambda: &[i64],
    keys: &Vec<Vec<i64>>,
    vals: &Vec<u64>,
    d: i64,
    mu: &[i64],
    alpha: &[i64],
) -> (res: Option<i128>)
    requires
        2 <= lambda@.len() <= RANK_BOUND,
        bounded(lambda@, WEIGHT_BOUND as int),
        0 <= lambda@[0] <= WEIGHT_BOUND,
        table_exact(series, lambda@, keys@, vals@, d as int),
        table_wf(series, lambda@, keys@, vals@),
        dominant_below(series, lambda@, lambda@[0] as int, mu@),
        depth_spec(series, lambda@, mu@) == d,
        d >= 1,
        is_positive_root(series, lambda@.len() as int, alpha@),
        alpha@.len() == lambda@.len(),
        bounded(alpha@, 2),
    ensures
        match res {
            Some(x) => x == freudenthal_string(series, lambda@, mu@, alpha@, 1) && x >= 0,
            None => freudenthal_string(series, lambda@, mu@, alpha@, 1) > i128::MAX,
        },
{
    let r = mu.len();
    let hi = lambda[0];
    let kmax: i64 = 2 * hi + 2;
    proof {
        lemma_root_pairing(series, mu@, alpha@);
    }
    let aa = dot(alpha, alpha) as i128;
    let mu_a = dot(alpha, mu) as i128;
    let mut sum: i128 = 0;
    let mut k: i64 = 1;
    while k <= kmax
        invariant
            r == mu@.len() == alpha@.len() == lambda@.len(),
            2 <= r <= RANK_BOUND,
            hi == lambda@[0],
            0 <= hi <= WEIGHT_BOUND,
            kmax == 2 * hi + 2,
            kmax == string_bound(lambda@),
            bounded(mu@, hi as int),
            bounded(alpha@, 2),
            1 <= k <= kmax + 1,
            aa == dot_spec(alpha@, alpha@),
            mu_a == dot_spec(alpha@, mu@),
            aa >= 1,
            mu_a >= 0,
            aa <= 0x7fff_ffff_ffff_ffff,
            mu_a <= 0x7fff_ffff_ffff_ffff,
            sum >= 0,
            table_exact(series, lambda@, keys@, vals@, d as int),
            table_wf(series, lambda@, keys@, vals@),
            dominant_below(series, lambda@, lambda@[0] as int, mu@),
            depth_spec(series, lambda@, mu@) == d,
            d >= 1,
            sum + freudenthal_string(series, lambda@, mu@, alpha@, k as int) == freudenthal_string(
                series,
                lambda@,
                mu@,
                alpha@,
                1,
            ),
        decreases kmax - k + 1,
    {
        // μ + kα
        let mut shifted: Vec<i64> = Vec::new();
        let mut t: usize = 0;
        while t < r
            invariant
                r == mu@.len() == alpha@.len(),
                bounded(mu@, hi as int),
                bounded(alpha@, 2),
                0 <= hi <= WEIGHT_BOUND,
                1 <= k <= kmax,
                kmax == 2 * hi + 2,
                t <= r,
                shifted@.len() == t,
                bounded(shifted@, 6 * WEIGHT_BOUND),
                forall|i: int| 0 <= i < t ==> shifted@[i] == mu@[i] + k * alpha@[i],
            decreases r - t,
        {
            assert(-2 * k <= k * alpha@[t as int] <= 2 * k) by (nonlinear_arith)
                requires
                    -2 <= alpha@[t as int] <= 2,
                    1 <= k,
            ;
            shifted.push(mu[t] + k * alpha[t]);
            t = t + 1;
        }
        assert(shifted@ =~= shift_spec(mu@, alpha@, k as int));
        let dom = weyl_dominant(series, shifted.as_slice());
        let found = lookup_mult(keys, vals, dom.as_slice());
        proof {
            lemma_known_lookup(series, lambda@, keys@, vals@, d as int, mu@, dom@, found);
        }
        let m: u64 = match found {
            Some(v) => v,
            None => 0,
        };
        if m == 0 {
            return Some(sum);
        }
        let k128 = k as i128;
        assert(k128 * aa <= 0x1_0000_0000_0000_0000_0000_0000) by (nonlinear_arith)
            requires
                1 <= k128 <= 2 * WEIGHT_BOUND + 2,
                1 <= aa <= 0x7fff_ffff_ffff_ffff,
        ;
        assert(k128 * aa >= 1) by (nonlinear_arith)
            requires
                1 <= k128,
                1 <= aa,
        ;
        let coef = 2 * (mu_a + k128 * aa);
        proof {
            lemma_string_nonneg(series, lambda@, mu@, alpha@, (k + 1) as int);
            assert(freudenthal_string(series, lambda@, mu@, alpha@, k as int) == coef * m
                + freudenthal_string(series, lambda@, mu@, alpha@, (k + 1) as int));
        }
        let term = match coef.checked_mul(m as i128) {
            Some(x) => x,
            None => return None,
        };
        assert(term >= 0) by (nonlinear_arith)
            requires
                coef >= 0,
                m >= 0,
                term == coef * m,
        ;
        sum = match sum.checked_add(term) {
            Some(x) => x,
            None => return None,
        };
        k = k + 1;
    }
    Some(sum)
}

/// The suffix sums of the Freudenthal root sum at a dominant `μ` are
/// non-negative.
proof fn lemma_roots_nonneg(series: Series, lam: Seq<i64>, mu: Seq<i64>, i: int)
    requires
        mu.len() == lam.len() >= 2,
        is_dominant(series, mu),
        forall|j: int|
            0 <= j < positive_roots_spec(series, lam.len() as int).len() ==> is_positive_root(
                series,
                lam.len() as int,
                #[trigger] positive_roots_spec(series, lam.len() as int)[j],
            ),
        i >= 0,
    ensures
        freudenthal_roots(series, lam, mu, i) >= 0,
    decreases positive_roots_spec(series, lam.len() as int).len() - i,
{
    let rs = positive_roots_spec(series, lam.len() as int);
    if i < rs.len() {
        lemma_roots_nonneg(series, lam, mu, i + 1);
        lemma_root_pairing(series, mu, rs[i]);
        lemma_string_nonneg(series, lam, mu, rs[i], 1);
    }
}

/// The sum [`freudenthal_roots`] over every positive root; `None` exactly
/// when it, or one of its string sums, exceeds the `i128` range (all terms
/// are non-negative, so that is when the total does).
fn root_sum(
    series: Series,
    lambda: &[i64],
    roots: &Vec<Vec<i64>>,
    keys: &Vec<Vec<i64>>,
    vals: &Vec<u64>,
    d: i64,
    mu: &[i64],
) -> (res: Option<i128>)
    requires
        2 <= lambda@.len() <= RANK_BOUND,
        bounded(lambda@, WEIGHT_BOUND as int),
        0 <= lambda@[0] <= WEIGHT_BOUND,
        table_exact(series, lambda@, keys@, vals@, d as int),
        table_wf(series, lambda@, keys@, vals@),
        dominant_below(series, lambda@, lambda@[0] as int, mu@),
        depth_spec(series, lambda@, mu@) == d,
        d >= 1,
        all_positive_roots(series, lambda@.len() as int, roots@),
        vec_views(roots@) == positive_roots_spec(series, lambda@.len() as int),
    ensures
        match res {
            Some(x) => x == freudenthal_roots(series, lambda@, mu@, 0) && x >= 0,
            None => freudenthal_roots(series, lambda@, mu@, 0) > i128::MAX,
        },
{
    let ghost rs = positive_roots_spec(series, lambda@.len() as int);
    proof {
        assert forall|j: int| 0 <= j < rs.len() implies is_positive_root(
            series,
            lambda@.len() as int,
            #[trigger] rs[j],
        ) by {
            assert(vec_views(roots@)[j] == roots@[j]@);
        }
    }
    let mut num: i128 = 0;
    let mut ri: usize = 0;
    while ri < roots.len()
        invariant
            2 <= lambda@.len() <= RANK_BOUND,
            bounded(lambda@, WEIGHT_BOUND as int),
            0 <= lambda@[0] <= WEIGHT_BOUND,
            table_exact(series, lambda@, keys@, vals@, d as int),
            table_wf(series, lambda@, keys@, vals@),
            dominant_below(series, lambda@, lambda@[0] as int, mu@),
            depth_spec(series, lambda@, mu@) == d,
            d >= 1,
            all_positive_roots(series, lambda@.len() as int, roots@),
            vec_views(roots@) == rs,
            rs == positive_roots_spec(series, lambda@.len() as int),
            forall|j: int| 0 <= j < rs.len() ==> is_positive_root(
                series,
                lambda@.len() as int,
                #[trigger] rs[j],
            ),
            ri <= roots@.len(),
            num >= 0,
            num + freudenthal_roots(series, lambda@, mu@, ri as int) == freudenthal_roots(
                series,
                lambda@,
                mu@,
                0,
            ),
        decreases roots@.len() - ri,
    {
        assert(rs[ri as int] == roots@[ri as int]@);
        assert(rs.len() == roots@.len());
        proof {
            lemma_roots_nonneg(series, lambda@, mu@, (ri + 1) as int);
        }
        let s = match string_sum(series, lambda, keys, vals, d, mu, roots[ri].as_slice()) {
            Some(x) => x,
            None => return None,
        };
        num = match num.checked_add(s) {
            Some(x) => x,
            None => return None,
        };
        ri = ri + 1;
    }
    assert(vec_views(roots@).len() == roots@.len());
    Some(num)
}

/// The Freudenthal multiplicity of a weight `μ ≠ λ` of depth `d`, from the
/// table of the weights of smaller depth; `None` exactly when the Casimir
/// difference is not positive or the root sum exceeds the `i128` range.
fn multiplicity_at(
    series: Series,
    lambda: &[i64],
    tr: &Vec<i64>,
    cas_lambda: i128,
    roots: &Vec<Vec<i64>>,
    keys: &Vec<Vec<i64>>,
    vals: &Vec<u64>,
    d: i64,
    mu: &[i64],
) -> (res: Option<i128>)
    requires
        2 <= lambda@.len() <= RANK_BOUND,
        bounded(lambda@, WEIGHT_BOUND as int),
        0 <= lambda@[0] <= WEIGHT_BOUND,
        tr@ == two_rho_seq(series, lambda@.len() as int),
        bounded(tr@, 2 * RANK_BOUND),
        cas_lambda == casimir_spec(series, lambda@),
        -0x1_0000_0000_0000_0000 <= cas_lambda <= 0x1_0000_0000_0000_0000,
        table_exact(series, lambda@, keys@, vals@, d as int),
        table_wf(series, lambda@, keys@, vals@),
        dominant_below(series, lambda@, lambda@[0] as int, mu@),
        mu@ != lambda@,
        depth_spec(series, lambda@, mu@) == d,
        d >= 1,
        all_positive_roots(series, lambda@.len() as int, roots@),
        vec_views(roots@) == positive_roots_spec(series, lambda@.len() as int),
    ensures
        match res {
            Some(x) => x == freudenthal_mult(series, lambda@, mu@) && x >= 0 && casimir_spec(
                series,
                lambda@,
            ) - casimir_spec(series, mu@) > 0 && freudenthal_roots(series, lambda@, mu@, 0)
                <= i128::MAX,
            None => casimir_spec(series, lambda@) - casimir_spec(series, mu@) <= 0
                || freudenthal_roots(series, lambda@, mu@, 0) > i128::MAX,
        },
{
    let cas_mu = casimir(mu, tr.as_slice());
    let den = cas_lambda - cas_mu;
    if den <= 0 {
        return None;
    }
    let num = match root_sum(series, lambda, roots, keys, vals, d, mu) {
        Some(x) => x,
        None => return None,
    };
    Some(num / den)
}

/// Freudenthal's recursion at a weight `μ ≠ λ` stays within the integer
/// types it is computed in: a positive Casimir difference, a root sum within
/// `i128`, and a multiplicity within `u64`.
pub open spec fn multiplicity_fits(series: Series, lam: Seq<i64>, mu: Seq<i64>) -> bool {
    &&& casimir_spec(series, lam) - casimir_spec(series, mu) > 0
    &&& freudenthal_roots(series, lam, mu, 0) <= i128::MAX
    &&& freudenthal_mult(series, lam, mu) <= u64::MAX
}

/// Freudenthal's recursion fits the integer types at every dominant weight
/// below `λ` other than `λ`.
pub open spec fn multiplicities_fit(series: Series, lam: Seq<i64>) -> bool {
    forall|mu: Seq<i64>|
        dominant_below(series, lam, lam[0] as int, mu) && mu != lam ==> #[trigger] multiplicity_fits(
            series,
            lam,
            mu,
        )
}

/// Exact dominant-weight multiplicities of the irrep with highest weight
/// `lambda`, by Freudenthal's recursion in integer arithmetic: dominant
/// weights are processed by increasing depth below `lambda`, each from the
/// multiplicities of the weights of smaller depth.
///
/// `None` exactly when, at some dominant weight, a root sum leaves the
/// `i128` range, a multiplicity leaves `u64`, or the recursion's denominator
/// is not positive ([`multiplicities_fit`]).
#[verifier::spinoff_prover]
fn freudenthal(series: Series, lambda: &[i64]) -> (res: Option<Vec<(Vec<i64>, u64)>>)
    requires
        weight_wf(series, lambda@),
        lambda@.len() <= RANK_BOUND,
        bounded(lambda@, WEIGHT_BOUND as int),
    ensures
        match res {
            Some(m) => multiplicities_wf(series, lambda@, m@) && multiplicities_exact(
                series,
                lambda@,
                m@,
            ) && multiplicities_fit(series, lambda@),
            None => !multiplicities_fit(series, lambda@),
        },
{
    let r = lambda.len();
    let hi = lambda[0];
    let tr = two_rho(series, r);
    proof {
        assert(tr@ =~= two_rho_seq(series, r as int));
        lemma_highest_weight_below(series, lambda@);
        lemma_depth_top(series, lambda@);
    }
    let roots = positive_roots(series, r);
    let doms = enumerate_dominant_below(series, lambda);

    // The depth of each dominant weight: the height of λ − μ in simple roots.
    let mut depths: Vec<i64> = Vec::new();
    let mut maxd: i64 = 0;
    let mut i: usize = 0;
    while i < doms.len()
        invariant
            i <= doms@.len(),
            depths@.len() == i,
            maxd >= 0,
            weight_wf(series, lambda@),
            r == lambda@.len() <= RANK_BOUND,
            hi == lambda@[0],
            bounded(lambda@, WEIGHT_BOUND as int),
            all_dominant_below(series, lambda@, hi as int, doms@),
            forall|j: int| 0 <= j < i ==> #[trigger] depths@[j] == depth_spec(series, lambda@, doms@[j]@),
            forall|j: int| 0 <= j < i ==> #[trigger] depths@[j] <= maxd,
            maxd <= 0x8000_0000_0000,
        decreases doms@.len() - i,
    {
        assert(dominant_below(series, lambda@, hi as int, doms@[i as int]@));
        let depth = match weight_depth(series, lambda, doms[i].as_slice()) {
            Some(x) => x,
            None => return None,
        };
        if depth > maxd {
            maxd = depth;
        }
        depths.push(depth);
        i = i + 1;
    }
    if maxd == i64::MAX {
        return None;
    }
    let cas_lambda = casimir(lambda, tr.as_slice());

    let mut keys: Vec<Vec<i64>> = Vec::new();
    let mut vals: Vec<u64> = Vec::new();
    keys.push(copy_vec(lambda));
    vals.push(1);
    proof {
        assert(keys@[0]@ == lambda@);
        assert(freudenthal_mult(series, lambda@, lambda@) == 1);
        assert(table_wf(series, lambda@, keys@, vals@));
        assert(table_exact(series, lambda@, keys@, vals@, 0));
    }
    proof {
        assert forall|mu: Seq<i64>|
            dominant_below(series, lambda@, lambda@[0] as int, mu) && mu != lambda@ && depth_spec(
                series,
                lambda@,
                mu,
            ) < 0 implies #[trigger] multiplicity_fits(series, lambda@, mu) by {
            lemma_depth_nonneg(series, lambda@, mu);
        }
    }
    let mut d: i64 = 0;
    while d <= maxd
        invariant
            r == lambda@.len() <= RANK_BOUND,
            2 <= r,
            hi == lambda@[0],
            0 <= hi <= WEIGHT_BOUND,
            weight_wf(series, lambda@),
            bounded(lambda@, WEIGHT_BOUND as int),
            tr@ == two_rho_seq(series, r as int),
            bounded(tr@, 2 * RANK_BOUND),
            cas_lambda == casimir_spec(series, lambda@),
            -0x1_0000_0000_0000_0000 <= cas_lambda <= 0x1_0000_0000_0000_0000,
            all_positive_roots(series, r as int, roots@),
            vec_views(roots@) == positive_roots_spec(series, r as int),
            all_dominant_below(series, lambda@, hi as int, doms@),
            forall|mu: Seq<i64>|
                dominant_below(series, lambda@, lambda@[0] as int, mu) ==> #[trigger] holds_vec(
                    doms@,
                    mu,
                ),
            depths@.len() == doms@.len(),
            forall|j: int|
                0 <= j < doms@.len() ==> #[trigger] depths@[j] == depth_spec(series, lambda@, doms@[j]@),
            forall|j: int| 0 <= j < doms@.len() ==> #[trigger] depths@[j] <= maxd,
            keys@.len() == vals@.len(),
            keys@.len() >= 1,
            keys@[0]@ == lambda@,
            vals@[0] == 1,
            table_wf(series, lambda@, keys@, vals@),
            table_exact(series, lambda@, keys@, vals@, d as int),
            0 <= d <= maxd + 1,
            maxd < i64::MAX,
            forall|mu: Seq<i64>|
                dominant_below(series, lambda@, lambda@[0] as int, mu) && mu != lambda@ && depth_spec(
                    series,
                    lambda@,
                    mu,
                ) < d ==> #[trigger] multiplicity_fits(series, lambda@, mu),
        decreases maxd - d + 1,
    {
        // The weights of depth `d`, computed from the table of smaller depths
        // and only then added to it.
        let mut pk: Vec<Vec<i64>> = Vec::new();
        let mut pv: Vec<u64> = Vec::new();
        let mut idx: usize = 0;
        while idx < doms.len()
            invariant
                r == lambda@.len() <= RANK_BOUND,
                2 <= r,
                hi == lambda@[0],
                0 <= hi <= WEIGHT_BOUND,
                weight_wf(series, lambda@),
                bounded(lambda@, WEIGHT_BOUND as int),
                tr@ == two_rho_seq(series, r as int),
                bounded(tr@, 2 * RANK_BOUND),
                cas_lambda == casimir_spec(series, lambda@),
                -0x1_0000_0000_0000_0000 <= cas_lambda <= 0x1_0000_0000_0000_0000,
                all_positive_roots(series, r as int, roots@),
                vec_views(roots@) == positive_roots_spec(series, r as int),
                all_dominant_below(series, lambda@, hi as int, doms@),
                depths@.len() == doms@.len(),
                forall|j: int|
                    0 <= j < doms@.len() ==> #[trigger] depths@[j] == depth_spec(
                        series,
                        lambda@,
                        doms@[j]@,
                    ),
                keys@.len() == vals@.len(),
                table_wf(series, lambda@, keys@, vals@),
                table_exact(series, lambda@, keys@, vals@, d as int),
                0 <= d,
                idx <= doms@.len(),
                pk@.len() == pv@.len(),
                distinct_vecs(pk@),
                forall|t: int|
                    0 <= t < pk@.len() ==> {
                        &&& pv@[t] == freudenthal_mult(series, lambda@, (#[trigger] pk@[t])@)
                        &&& pv@[t] > 0
                        &&& pk@[t]@ != lambda@
                        &&& depth_spec(series, lambda@, pk@[t]@) == d
                        &&& dominant_below(series, lambda@, hi as int, pk@[t]@)
                    },
                forall|j: int|
                    0 <= j < idx && depths@[j] == d && doms@[j]@ != lambda@ && freudenthal_mult(
                        series,
                        lambda@,
                        doms@[j]@,
                    ) > 0 ==> #[trigger] holds_vec(pk@, doms@[j]@),
                forall|mu: Seq<i64>|
                    dominant_below(series, lambda@, lambda@[0] as int, mu) && mu != lambda@
                        && depth_spec(series, lambda@, mu) < d ==> #[trigger] multiplicity_fits(
                        series,
                        lambda@,
                        mu,
                    ),
                forall|j: int|
                    0 <= j < idx && depths@[j] == d && doms@[j]@ != lambda@ ==> #[trigger] multiplicity_fits(
                        series,
                        lambda@,
                        doms@[j]@,
                    ),
            decreases doms@.len() - idx,
        {
            let ghost pk0 = pk@;
            let ghost pv0 = pv@;
            if depths[idx] != d || same_vec(doms[idx].as_slice(), lambda) {
                proof {
                    assert forall|j: int|
                        0 <= j < idx + 1 && depths@[j] == d && doms@[j]@ != lambda@ implies #[trigger] multiplicity_fits(
                        series,
                        lambda@,
                        doms@[j]@,
                    ) by {
                        if j == idx {
                            assert(depths@[j] != d || doms@[j]@ == lambda@);
                        }
                    }
                }
                idx = idx + 1;
                continue;
            }
            let mu = doms[idx].as_slice();
            assert(dominant_below(series, lambda@, hi as int, mu@));
            proof {
                if d == 0 {
                    lemma_depth_zero_is_top(series, lambda@, mu@);
                }
            }
            let m = match multiplicity_at(
                series,
                lambda,
                &tr,
                cas_lambda,
                &roots,
                &keys,
                &vals,
                d,
                mu,
            ) {
                Some(x) => x,
                None => {
                    proof {
                        assert(!multiplicity_fits(series, lambda@, mu@));
                    }
                    return None;
                },
            };
            assert(multiplicity_fits(series, lambda@, mu@) <==> m <= u64::MAX);
            if m > 0 {
                if m > u64::MAX as i128 {
                    proof {
                        assert(!multiplicity_fits(series, lambda@, mu@));
                    }
                    return None;
                }
                match position_of(&pk, mu) {
                    Some(p) => {
                        assert(pk@[p as int]@ == mu@);
                        assert(holds_vec(pk@, mu@));
                    },
                    None => {
                        let w = copy_vec(mu);
                        pk.push(w);
                        pv.push(m as u64);
                        proof {
                            let last = pk@.len() - 1;
                            assert(pk@[last]@ == mu@);
                            assert(holds_vec(pk@, mu@));
                            assert forall|t: int| 0 <= t < pk@.len() implies {
                                &&& pv@[t] == freudenthal_mult(series, lambda@, (#[trigger] pk@[t])@)
                                &&& pv@[t] > 0
                                &&& pk@[t]@ != lambda@
                                &&& depth_spec(series, lambda@, pk@[t]@) == d
                                &&& dominant_below(series, lambda@, hi as int, pk@[t]@)
                            } by {
                                if t < pk0.len() {
                                    assert(pk@[t] == pk0[t]);
                                    assert(pv@[t] == pv0[t]);
                                }
                            }
                            assert forall|a: int, b: int| 0 <= a < b < pk@.len() implies #[trigger] pk@[a]@
                                != #[trigger] pk@[b]@ by {
                                assert(pk@[a] == pk0[a]);
                                if b < pk0.len() {
                                    assert(pk@[b] == pk0[b]);
                                }
                            }
                        }
                    },
                }
            }
            proof {
                assert forall|t: int| 0 <= t < pk@.len() implies {
                    &&& pv@[t] == freudenthal_mult(series, lambda@, (#[trigger] pk@[t])@)
                    &&& pv@[t] > 0
                    &&& pk@[t]@ != lambda@
                    &&& depth_spec(series, lambda@, pk@[t]@) == d
                    &&& dominant_below(series, lambda@, hi as int, pk@[t]@)
                } by {
                    if t < pk0.len() {
                        assert(pk@[t] == pk0[t]);
                        assert(pv@[t] == pv0[t]);
                    }
                }
                assert forall|j: int|
                    0 <= j < idx + 1 && depths@[j] == d && doms@[j]@ != lambda@ && freudenthal_mult(
                        series,
                        lambda@,
                        doms@[j]@,
                    ) > 0 implies #[trigger] holds_vec(pk@, doms@[j]@) by {
                    if j < idx {
                        assert(holds_vec(pk0, doms@[j]@));
                        let q = choose|q: int| 0 <= q < pk0.len() && #[trigger] pk0[q]@ == doms@[j]@;
                        assert(pk@[q]@ == doms@[j]@);
                    }
                }
                assert(multiplicity_fits(series, lambda@, mu@));
                assert forall|j: int|
                    0 <= j < idx + 1 && depths@[j] == d && doms@[j]@ != lambda@ implies #[trigger] multiplicity_fits(
                    series,
                    lambda@,
                    doms@[j]@,
                ) by {
                    if j == idx {
                        assert(doms@[j]@ == mu@);
                    }
                }
            }
            idx = idx + 1;
        }
        // Add the weights of depth `d` to the table.
        let ghost keys0 = keys@;
        let ghost vals0 = vals@;
        let mut t: usize = 0;
        while t < pk.len()
            invariant
                pk@.len() == pv@.len(),
                t <= pk@.len(),
                keys@.len() == vals@.len(),
                keys0.len() == vals0.len(),
                keys@.len() == keys0.len() + t,
                forall|k: int| 0 <= k < keys0.len() ==> #[trigger] keys@[k] == keys0[k] && vals@[k] == vals0[k],
                forall|k: int|
                    keys0.len() <= k < keys@.len() ==> (#[trigger] keys@[k])@ == pk@[k - keys0.len()]@
                        && vals@[k] == pv@[k - keys0.len()],
            decreases pk@.len() - t,
        {
            let ghost kb = keys@;
            let ghost vb = vals@;
            let w = copy_vec(pk[t].as_slice());
            keys.push(w);
            vals.push(pv[t]);
            proof {
                assert forall|k: int| 0 <= k < keys0.len() implies #[trigger] keys@[k] == keys0[k]
                    && vals@[k] == vals0[k] by {
                    assert(keys@[k] == kb[k]);
                    assert(vals@[k] == vb[k]);
                }
                assert forall|k: int|
                    keys0.len() <= k < keys@.len() implies (#[trigger] keys@[k])@ == pk@[k
                        - keys0.len()]@ && vals@[k] == pv@[k - keys0.len()] by {
                    if k < kb.len() {
                        assert(keys@[k] == kb[k]);
                        assert(vals@[k] == vb[k]);
                    }
                }
            }
            t = t + 1;
        }
        proof {
            lemma_table_grow(series, lambda@, keys0, vals0, pk@, pv@, keys@, vals@, d as int, doms@, depths@);
            assert forall|mu: Seq<i64>|
                dominant_below(series, lambda@, lambda@[0] as int, mu) && mu != lambda@ && depth_spec(
                    series,
                    lambda@,
                    mu,
                ) < d + 1 implies #[trigger] multiplicity_fits(series, lambda@, mu) by {
                if depth_spec(series, lambda@, mu) == d {
                    assert(holds_vec(doms@, mu));
                    let j = choose|j: int| 0 <= j < doms@.len() && #[trigger] doms@[j]@ == mu;
                    assert(depths@[j] == d);
                }
            }
        }
        d = d + 1;
    }
    proof {
        assert forall|mu: Seq<i64>| freudenthal_mult(series, lambda@, mu) > 0 implies #[trigger] holds_vec(
            keys@,
            mu,
        ) by {
            assert(dominant_below(series, lambda@, lambda@[0] as int, mu));
            assert(holds_vec(doms@, mu));
            let j = choose|j: int| 0 <= j < doms@.len() && #[trigger] doms@[j]@ == mu;
            assert(depths@[j] <= maxd);
            lemma_depth_nonneg(series, lambda@, mu);
        }
        assert forall|mu: Seq<i64>|
            dominant_below(series, lambda@, lambda@[0] as int, mu) && mu != lambda@ implies #[trigger] multiplicity_fits(
            series,
            lambda@,
            mu,
        ) by {
            assert(holds_vec(doms@, mu));
            let j = choose|j: int| 0 <= j < doms@.len() && #[trigger] doms@[j]@ == mu;
            assert(depths@[j] <= maxd);
        }
    }
    let mut out: Vec<(Vec<i64>, u64)> = Vec::new();
    let mut k: usize = 0;
    while k < keys.len()
        invariant
            k <= keys@.len(),
            keys@.len() == vals@.len(),
            keys@.len() >= 1,
            keys@[0]@ == lambda@,
            vals@[0] == 1,
            table_wf(series, lambda@, keys@, vals@),
            table_exact(series, lambda@, keys@, vals@, d as int),
            out@.len() == k,
            forall|t: int| #![auto] 0 <= t < k ==> out@[t].0@ == keys@[t]@,
            forall|t: int| #![auto] 0 <= t < k ==> out@[t].1 == vals@[t],
        decreases keys@.len() - k,
    {
        let w = copy_vec(keys[k].as_slice());
        let m = vals[k];
        let ghost before = out@;
        out.push((w, m));
        assert(forall|t: int| 0 <= t < k ==> out@[t] == before[t]);
        assert(out@[k as int].0@ == keys@[k as int]@ && out@[k as int].1 == vals@[k as int]);
        k = k + 1;
    }
    assert forall|a: int, b: int| 0 <= a < b < out@.len() implies #[trigger] out@[a].0@
        != #[trigger] out@[b].0@ by {
        assert(keys@[a]@ != keys@[b]@);
    }
    assert forall|t: int| 0 <= t < out@.len() implies {
        &&& dominant_below(series, lambda@, lambda@[0] as int, #[trigger] out@[t].0@)
        &&& out@[t].1 >= 1
    } by {
        assert(out@[t].0@ == keys@[t]@ && out@[t].1 == vals@[t]);
        assert(dominant_below(series, lambda@, lambda@[0] as int, keys@[t]@));
    }
    assert forall|t: int| 0 <= t < out@.len() implies (#[trigger] out@[t]).1 == freudenthal_mult(
        series,
        lambda@,
        out@[t].0@,
    ) by {
        assert(out@[t].0@ == keys@[t]@ && out@[t].1 == vals@[t]);
    }
    assert forall|mu: Seq<i64>| freudenthal_mult(series, lambda@, mu) > 0 implies exists|t: int|
        0 <= t < out@.len() && (#[trigger] out@[t]).0@ == mu by {
        assert(holds_vec(keys@, mu));
        let t = choose|t: int| 0 <= t < keys@.len() && #[trigger] keys@[t]@ == mu;
        assert(out@[t].0@ == mu);
    }
    assert(out@[0].0@ == keys@[0]@);
    Some(out)
}

/// Adding the weights of depth `d` turns the table of depth round `d` into
/// that of round `d + 1`.
proof fn lemma_table_grow(
    series: Series,
    lam: Seq<i64>,
    keys0: Seq<Vec<i64>>,
    vals0: Seq<u64>,
    pk: Seq<Vec<i64>>,
    pv: Seq<u64>,
    keys: Seq<Vec<i64>>,
    vals: Seq<u64>,
    d: int,
    doms: Seq<Vec<i64>>,
    depths: Seq<i64>,
)
    requires
        lam.len() >= 2,
        0 <= d,
        table_exact(series, lam, keys0, vals0, d),
        table_wf(series, lam, keys0, vals0),
        keys0.len() >= 1,
        keys0[0]@ == lam,
        vals0[0] == 1,
        pk.len() == pv.len(),
        distinct_vecs(pk),
        forall|t: int|
            0 <= t < pk.len() ==> {
                &&& pv[t] == freudenthal_mult(series, lam, (#[trigger] pk[t])@)
                &&& pv[t] > 0
                &&& pk[t]@ != lam
                &&& depth_spec(series, lam, pk[t]@) == d
                &&& dominant_below(series, lam, lam[0] as int, pk[t]@)
            },
        depths.len() == doms.len(),
        forall|j: int| 0 <= j < doms.len() ==> #[trigger] depths[j] == depth_spec(series, lam, doms[j]@),
        forall|mu: Seq<i64>| dominant_below(series, lam, lam[0] as int, mu) ==> #[trigger] holds_vec(doms, mu),
        forall|j: int|
            0 <= j < doms.len() && depths[j] == d && doms[j]@ != lam && freudenthal_mult(
                series,
                lam,
                doms[j]@,
            ) > 0 ==> #[trigger] holds_vec(pk, doms[j]@),
        keys.len() == vals.len(),
        keys.len() == keys0.len() + pk.len(),
        forall|k: int| 0 <= k < keys0.len() ==> #[trigger] keys[k] == keys0[k] && vals[k] == vals0[k],
        forall|k: int|
            keys0.len() <= k < keys.len() ==> (#[trigger] keys[k])@ == pk[k - keys0.len()]@ && vals[k]
                == pv[k - keys0.len()],
    ensures
        keys[0]@ == lam,
        vals[0] == 1,
        table_wf(series, lam, keys, vals),
        table_exact(series, lam, keys, vals, d + 1),
{
    let n0 = keys0.len();
    lemma_depth_top(series, lam);
    assert forall|k: int|
        0 <= k < keys.len() implies {
        &&& vals[k] == freudenthal_mult(series, lam, (#[trigger] keys[k])@)
        &&& vals[k] > 0
        &&& (keys[k]@ == lam || 0 <= depth_spec(series, lam, keys[k]@) < d + 1)
        &&& dominant_below(series, lam, lam[0] as int, keys[k]@)
    } by {
        if k < n0 {
            assert(keys[k] == keys0[k]);
        } else {
            assert(keys[k]@ == pk[k - n0]@);
        }
    }
    assert forall|a: int, b: int| 0 <= a < b < keys.len() implies #[trigger] keys[a]@
        != #[trigger] keys[b]@ by {
        if b < n0 {
            assert(keys[a] == keys0[a] && keys[b] == keys0[b]);
        } else if a < n0 {
            assert(keys[a] == keys0[a]);
            assert(keys[b]@ == pk[b - n0]@);
        } else {
            assert(keys[a]@ == pk[a - n0]@);
            assert(keys[b]@ == pk[b - n0]@);
        }
    }
    assert forall|mu: Seq<i64>|
        dominant_below(series, lam, lam[0] as int, mu) && 0 <= depth_spec(series, lam, mu) < d + 1
            && freudenthal_mult(series, lam, mu) > 0 implies #[trigger] holds_vec(keys, mu) by {
        if depth_spec(series, lam, mu) < d {
            assert(holds_vec(keys0, mu));
            let k = choose|k: int| 0 <= k < keys0.len() && #[trigger] keys0[k]@ == mu;
            assert(keys[k] == keys0[k]);
        } else if mu == lam {
            assert(keys[0] == keys0[0]);
        } else {
            assert(holds_vec(doms, mu));
            let j = choose|j: int| 0 <= j < doms.len() && #[trigger] doms[j]@ == mu;
            assert(holds_vec(pk, doms[j]@));
            let t = choose|t: int| 0 <= t < pk.len() && #[trigger] pk[t]@ == mu;
            assert(keys[n0 + t]@ == pk[n0 + t - n0]@);
        }
    }
    assert(keys[0] == keys0[0]);
}

/// Every root of `s` has length `r` and coordinates in `[-2, 2]`.
pub open spec fn all_positive_roots_len(s: Seq<Vec<i64>>, r: int) -> bool {
    forall|k: int| 0 <= k < s.len() ==> #[trigger] s[k]@.len() == r && bounded(s[k]@, 2)
}

/// The multiplicity table under construction is well formed.
pub open spec fn table_wf(series: Series, lam: Seq<i64>, keys: Seq<Vec<i64>>, vals: Seq<u64>) -> bool {
    &&& forall|k: int|
        0 <= k < keys.len() ==> {
            &&& dominant_below(series, lam, lam[0] as int, #[trigger] keys[k]@)
            &&& vals[k] >= 1
        }
    &&& distinct_vecs(keys)
}

/// The highest weight lies in its own box of dominant weights.
proof fn lemma_highest_weight_below(series: Series, lam: Seq<i64>)
    requires
        weight_wf(series, lam),
    ensures
        dominant_below(series, lam, lam[0] as int, lam),
{
    let r = lam.len() as int;
    let z = sub_spec(lam, lam);
    assert forall|i: int| 0 <= i <= r implies crate::weyl::prefix_sum(z, i) == 0 by {
        lemma_prefix_sum_zero(z, i);
    }
    assert forall|i: int| 0 <= i < r implies -lam[0] <= #[trigger] lam[i] <= lam[0] by {
        if series == Series::D && i == r - 1 {
            assert(lam[0] >= lam[r - 2]);
        }
    }
}

proof fn lemma_prefix_sum_zero(z: Seq<i64>, i: int)
    requires
        0 <= i <= z.len(),
        forall|k: int| 0 <= k < z.len() ==> z[k] == 0,
    ensures
        crate::weyl::prefix_sum(z, i) == 0,
    decreases i,
{
    if i > 0 {
        lemma_prefix_sum_zero(z, i - 1);
    }
}


/// Whether `lam` is a [`weight_wf`] highest weight of `series`.
fn is_weight_wf(series: Series, lam: &[i64]) -> (ok: bool)
    ensures
        ok == weight_wf(series, lam@),
{
    let r = lam.len();
    if r < series.min_rank() {
        return false;
    }
    // The coordinates that must be non-increasing and non-negative.
    let m = if series == Series::D {
        r - 1
    } else {
        r
    };
    let mut i: usize = 0;
    while i < m
        invariant
            m <= r == lam@.len(),
            m == if series == Series::D { r - 1 } else { r as int },
            i <= m,
            forall|a: int, b: int| 0 <= a < i && a <= b < m ==> lam@[a] >= lam@[b],
            forall|a: int| 0 <= a < i ==> lam@[a] >= 0,
        decreases m - i,
    {
        if lam[i] < 0 {
            return false;
        }
        let mut j: usize = i;
        while j < m
            invariant
                m <= r == lam@.len(),
                i < m,
                i <= j <= m,
                forall|b: int| i <= b < j ==> lam@[i as int] >= lam@[b],
            decreases m - j,
        {
            if lam[i] < lam[j] {
                return false;
            }
            j = j + 1;
        }
        i = i + 1;
    }
    match series {
        Series::B => lam[r - 1] <= i64::MAX / 2,
        Series::C => true,
        Series::D => lam[r - 2] >= lam[r - 1] && lam[r - 1] >= -lam[r - 2] && lam[r - 2] <= i64::MAX
            / 2,
    }
}

impl Irrep {
    /// Construct directly from a well-formed ε-basis highest weight.
    pub(crate) fn from_weight(series: Series, weight: Vec<i64>) -> (x: Irrep)
        requires
            weight_wf(series, weight@),
        ensures
            x.series_spec() == series,
            x.weight_spec() == weight@,
    {
        Irrep { series, weight }
    }

    /// Exact dominant-weight multiplicities of this irrep, by Freudenthal's
    /// recursion in integer arithmetic.
    ///
    /// The highest weight comes first with multiplicity `1`; every other entry
    /// is a distinct dominant weight `μ ≤ λ` with its multiplicity `m_λ(μ) ≥ 1`.
    /// Every weight of the irrep is a Weyl image of exactly one entry, with the
    /// same multiplicity. `None` exactly when the weight lies outside the
    /// algorithms' box ([`weight_in_box`]) or the exact arithmetic leaves its
    /// integer range at some dominant weight ([`multiplicities_fit`]).
    pub fn weight_multiplicities(&self) -> (res: Option<Vec<(Vec<i64>, u64)>>)
        ensures
            match res {
                Some(m) => weight_in_box(self.weight_spec()) && multiplicities_wf(
                    self.series_spec(),
                    self.weight_spec(),
                    m@,
                ) && multiplicities_exact(self.series_spec(), self.weight_spec(), m@)
                    && multiplicities_fit(self.series_spec(), self.weight_spec()),
                None => !weight_in_box(self.weight_spec()) || !multiplicities_fit(
                    self.series_spec(),
                    self.weight_spec(),
                ),
            },
    {
        proof {
            use_type_invariant(self);
        }
        if !in_box(self.weight.as_slice()) {
            return None;
        }
        freudenthal(self.series, self.weight.as_slice())
    }
}

/// Whether every irrep of `v` belongs to `series` at rank `r`, has a positive
/// multiplicity, and no two share a highest weight.
pub open spec fn product_wf(series: Series, r: nat, v: Seq<(Irrep, u32)>) -> bool {
    &&& forall|k: int|
        0 <= k < v.len() ==> {
            &&& (#[trigger] v[k]).0.series_spec() == series
            &&& v[k].0.weight_spec().len() == r
            &&& v[k].1 >= 1
        }
    &&& forall|a: int, b: int|
        0 <= a < b < v.len() ==> (#[trigger] v[a]).0.weight_spec() != (#[trigger] v[b]).0.weight_spec()
}

// ---- Racah–Speiser decomposition ----------------------------------------------------

/// `2(a + ρ) + 2ω`, the twice-scaled `ρ`-shifted weight that the weight `ω`
/// of `b` contributes through in `a ⊗ b`.
pub open spec fn two_xi_spec(series: Series, a: Seq<i64>, omega: Seq<i64>) -> Seq<i64> {
    Seq::new(
        a.len(),
        |t: int| (2 * a[t] + two_rho_entry(series, a.len() as int, t) + 2 * omega[t]) as i64,
    )
}

/// `x / 2` rounded toward zero, as integer division does.
pub open spec fn half_toward_zero(x: int) -> int {
    if x >= 0 {
        x / 2
    } else {
        -((-x) / 2)
    }
}

/// The highest weight `w(ξ) − ρ` reached from a regular twice-scaled `2ξ`.
pub open spec fn rs_target(series: Series, xi2: Seq<i64>) -> Seq<i64> {
    let d = weyl_dominant_spec(series, xi2);
    Seq::new(
        d.len(),
        |t: int| half_toward_zero(d[t] - two_rho_entry(series, d.len() as int, t)) as i64,
    )
}

/// The contribution of the weight `ω` of `b` to the coefficient of `c` in
/// `a ⊗ b`: `det(w)` when `2(a+ρ+ω)` is regular and `w(a+ρ+ω) − ρ = c`, else
/// `0`.
pub open spec fn rs_contribution(series: Series, a: Seq<i64>, omega: Seq<i64>, c: Seq<i64>) -> int {
    let x = two_xi_spec(series, a, omega);
    if !is_singular(series, x) && rs_target(series, x) == c {
        conjugation_sign(series, x)
    } else {
        0
    }
}

/// The contributions to `c` of the first `j` weights of the list `o`.
pub open spec fn orbit_sum(series: Series, a: Seq<i64>, o: Seq<Vec<i64>>, c: Seq<i64>, j: int) -> int
    decreases j,
{
    if j <= 0 {
        0
    } else {
        orbit_sum(series, a, o, c, j - 1) + rs_contribution(series, a, o[j - 1]@, c)
    }
}

/// `Σ_{i < n} m_i · (contributions to c of the i-th orbit)`, over the
/// dominant weights `ms[i]` of `b` with multiplicity `m_i` and their Weyl
/// orbits `os[i]`.
pub open spec fn rs_partial(
    series: Series,
    a: Seq<i64>,
    ms: Seq<(Vec<i64>, u64)>,
    os: Seq<Seq<Vec<i64>>>,
    c: Seq<i64>,
    n: int,
) -> int
    decreases n,
{
    if n <= 0 {
        0
    } else {
        rs_partial(series, a, ms, os, c, n - 1) + ms[n - 1].1 as int * orbit_sum(
            series,
            a,
            os[n - 1],
            c,
            os[n - 1].len() as int,
        )
    }
}

/// The Racah–Speiser coefficient of `c` in `a ⊗ b`: the sum of
/// `m_b(ω) · det(w)` over all weights `ω` of `b` (each dominant weight of
/// the table `ms` spread over its orbit in `os`).
pub open spec fn rs_coefficient(
    series: Series,
    a: Seq<i64>,
    ms: Seq<(Vec<i64>, u64)>,
    os: Seq<Seq<Vec<i64>>>,
    c: Seq<i64>,
) -> int {
    rs_partial(series, a, ms, os, c, ms.len() as int)
}

/// `o` lists the Weyl orbit of `mu`, each weight once.
pub open spec fn orbit_listing(series: Series, mu: Seq<i64>, o: Seq<Vec<i64>>) -> bool {
    &&& distinct_vecs(o)
    &&& forall|w: Seq<i64>| #[trigger] holds_vec(o, w) <==> is_weyl_image(series, mu, w)
}

/// `ms` is the exact dominant-weight multiplicity table of the irrep with
/// highest weight `lam`, and `os[i]` lists the Weyl orbit of `ms[i]`: together
/// they list every weight of the irrep with its multiplicity.
pub open spec fn rs_listing(
    series: Series,
    lam: Seq<i64>,
    ms: Seq<(Vec<i64>, u64)>,
    os: Seq<Seq<Vec<i64>>>,
) -> bool {
    &&& multiplicities_wf(series, lam, ms)
    &&& multiplicities_exact(series, lam, ms)
    &&& os.len() == ms.len()
    &&& forall|i: int| 0 <= i < ms.len() ==> orbit_listing(series, ms[i].0@, #[trigger] os[i])
}

/// Some entry of `v` has highest weight `c`.
pub open spec fn lists_weight(v: Seq<(Irrep, u32)>, c: Seq<i64>) -> bool {
    exists|k: int| 0 <= k < v.len() && (#[trigger] v[k]).0.weight_spec() == c
}

/// `v` lists exactly the irreps `c` of positive Racah–Speiser coefficient,
/// each with that coefficient.
pub open spec fn rs_decomposition(
    series: Series,
    a: Seq<i64>,
    ms: Seq<(Vec<i64>, u64)>,
    os: Seq<Seq<Vec<i64>>>,
    v: Seq<(Irrep, u32)>,
) -> bool {
    &&& forall|k: int|
        0 <= k < v.len() ==> (#[trigger] v[k]).1 == rs_coefficient(
            series,
            a,
            ms,
            os,
            v[k].0.weight_spec(),
        )
    &&& forall|c: Seq<i64>| #[trigger] rs_coefficient(series, a, ms, os, c) > 0 ==> lists_weight(v, c)
}

/// `rs_partial` up to `n` reads only the first `n` orbits.
proof fn lemma_rs_partial_push(
    series: Series,
    a: Seq<i64>,
    ms: Seq<(Vec<i64>, u64)>,
    os: Seq<Seq<Vec<i64>>>,
    o: Seq<Vec<i64>>,
    c: Seq<i64>,
    n: int,
)
    requires
        0 <= n <= os.len(),
    ensures
        rs_partial(series, a, ms, os.push(o), c, n) == rs_partial(series, a, ms, os, c, n),
    decreases n,
{
    if n > 0 {
        lemma_rs_partial_push(series, a, ms, os, o, c, n - 1);
        assert(os.push(o)[n - 1] == os[n - 1]);
    }
}

/// Scaling one more term of a sum by `m`.
proof fn lemma_scale_step(m: int, s: int, d: int)
    by (nonlinear_arith)
    ensures
        m * (s + d) == m * s + m * d,
        d == 0 ==> m * d == 0,
        d == 1 ==> m * d == m,
        d == -1 ==> m * d == -m,
{
}

/// The sign of a Weyl conjugation is `±1`.
proof fn lemma_conjugation_sign_unit(series: Series, x: Seq<i64>)
    ensures
        conjugation_sign(series, x) == 1 || conjugation_sign(series, x) == -1,
{
}

/// The coefficient of `c` after the first `j` weights of `orbit` have been
/// added to the coefficients `base`, each with multiplicity `m`.
pub open spec fn running_total(
    series: Series,
    a: Seq<i64>,
    orbit: Seq<Vec<i64>>,
    m: int,
    base: spec_fn(Seq<i64>) -> int,
    c: Seq<i64>,
    j: int,
) -> int {
    base(c) + m * orbit_sum(series, a, orbit, c, j)
}

/// Every running coefficient, after every prefix of `orbit`, lies in `i64`.
pub open spec fn running_fits(
    series: Series,
    a: Seq<i64>,
    orbit: Seq<Vec<i64>>,
    m: int,
    base: spec_fn(Seq<i64>) -> int,
) -> bool {
    forall|j: int, c: Seq<i64>|
        0 <= j <= orbit.len() ==> i64::MIN <= #[trigger] running_total(series, a, orbit, m, base, c, j)
            <= i64::MAX
}

/// Adds `m · det(w)` for each weight of `orbit` to the coefficient of its
/// Racah–Speiser image, opening an entry where there is none; `false` exactly
/// when a running coefficient would leave `i64` ([`running_fits`]).
fn accumulate_orbit(
    series: Series,
    a: &[i64],
    tr: &[i64],
    two_a_rho: &[i64],
    orbit: &Vec<Vec<i64>>,
    m: i64,
    keys: &mut Vec<Vec<i64>>,
    vals: &mut Vec<i64>,
    Ghost(base): Ghost<spec_fn(Seq<i64>) -> int>,
) -> (ok: bool)
    requires
        2 <= a@.len() <= RANK_BOUND,
        tr@.len() == a@.len(),
        two_a_rho@.len() == a@.len(),
        forall|t: int| 0 <= t < a@.len() ==> #[trigger] tr@[t] == two_rho_entry(series, a@.len() as int, t),
        forall|t: int|
            0 <= t < a@.len() ==> #[trigger] two_a_rho@[t] == 2 * a@[t] + two_rho_entry(
                series,
                a@.len() as int,
                t,
            ),
        bounded(tr@, 2 * RANK_BOUND),
        bounded(two_a_rho@, 3 * WEIGHT_BOUND),
        all_bounded(orbit@, a@.len() as int, WEIGHT_BOUND as int),
        0 <= m,
        old(keys)@.len() == old(vals)@.len(),
        all_bounded(old(keys)@, a@.len() as int, i64::MAX as int),
        distinct_vecs(old(keys)@),
        forall|p: int| 0 <= p < old(keys)@.len() ==> old(vals)@[p] == base(#[trigger] old(keys)@[p]@),
        forall|c: Seq<i64>| !#[trigger] holds_vec(old(keys)@, c) ==> base(c) == 0,
    ensures
        ok == running_fits(series, a@, orbit@, m as int, base),
        final(keys)@.len() == final(vals)@.len(),
        all_bounded(final(keys)@, a@.len() as int, i64::MAX as int),
        distinct_vecs(final(keys)@),
        ok ==> forall|p: int|
            0 <= p < final(keys)@.len() ==> final(vals)@[p] == base(#[trigger] final(keys)@[p]@) + m
                * orbit_sum(series, a@, orbit@, final(keys)@[p]@, orbit@.len() as int),
        ok ==> forall|c: Seq<i64>|
            !#[trigger] holds_vec(final(keys)@, c) ==> base(c) + m * orbit_sum(
                series,
                a@,
                orbit@,
                c,
                orbit@.len() as int,
            ) == 0,
{
    let r = a.len();
    proof {
        assert forall|j: int, c: Seq<i64>| 0 <= j <= 0 implies i64::MIN <= #[trigger] running_total(
            series,
            a@,
            orbit@,
            m as int,
            base,
            c,
            j,
        ) <= i64::MAX by {
            lemma_scale_step(m as int, 0, 0);
            if holds_vec(keys@, c) {
                let q = choose|q: int| 0 <= q < keys@.len() && #[trigger] keys@[q]@ == c;
                assert(vals@[q] == base(keys@[q]@));
            }
        }
    }
    let mut oi: usize = 0;
    while oi < orbit.len()
        invariant
            r == a@.len() == tr@.len() == two_a_rho@.len(),
            2 <= r <= RANK_BOUND,
            forall|t: int| 0 <= t < r ==> #[trigger] tr@[t] == two_rho_entry(series, r as int, t),
            forall|t: int|
                0 <= t < r ==> #[trigger] two_a_rho@[t] == 2 * a@[t] + two_rho_entry(
                    series,
                    r as int,
                    t,
                ),
            bounded(tr@, 2 * RANK_BOUND),
            bounded(two_a_rho@, 3 * WEIGHT_BOUND),
            all_bounded(orbit@, r as int, WEIGHT_BOUND as int),
            0 <= m,
            keys@.len() == vals@.len(),
            all_bounded(keys@, r as int, i64::MAX as int),
            distinct_vecs(keys@),
            oi <= orbit@.len(),
            forall|p: int|
                0 <= p < keys@.len() ==> vals@[p] == base(#[trigger] keys@[p]@) + m * orbit_sum(
                    series,
                    a@,
                    orbit@,
                    keys@[p]@,
                    oi as int,
                ),
            forall|c: Seq<i64>|
                !#[trigger] holds_vec(keys@, c) ==> base(c) + m * orbit_sum(
                    series,
                    a@,
                    orbit@,
                    c,
                    oi as int,
                ) == 0,
            forall|j: int, c: Seq<i64>|
                0 <= j <= oi ==> i64::MIN <= #[trigger] running_total(
                    series,
                    a@,
                    orbit@,
                    m as int,
                    base,
                    c,
                    j,
                ) <= i64::MAX,
        decreases orbit@.len() - oi,
    {
        let omega = orbit[oi].as_slice();
        assert(omega@.len() == r && bounded(omega@, WEIGHT_BOUND as int));
        // 2ξ = 2(a+ρ) + 2ω.
        let mut two_xi: Vec<i64> = Vec::new();
        let mut t: usize = 0;
        while t < r
            invariant
                r == two_a_rho@.len() == omega@.len() == a@.len(),
                forall|j: int|
                    0 <= j < r ==> #[trigger] two_a_rho@[j] == 2 * a@[j] + two_rho_entry(
                        series,
                        r as int,
                        j,
                    ),
                bounded(two_a_rho@, 3 * WEIGHT_BOUND),
                bounded(omega@, WEIGHT_BOUND as int),
                t <= r,
                two_xi@.len() == t,
                bounded(two_xi@, 5 * WEIGHT_BOUND),
                forall|j: int|
                    0 <= j < t ==> #[trigger] two_xi@[j] == two_xi_spec(series, a@, omega@)[j],
            decreases r - t,
        {
            two_xi.push(two_a_rho[t] + 2 * omega[t]);
            t = t + 1;
        }
        assert(two_xi@ =~= two_xi_spec(series, a@, omega@));
        let ghost x = two_xi@;
        let ghost before_keys = keys@;
        let ghost before_vals = vals@;
        let ghost next = (oi + 1) as int;
        proof {
            assert forall|c: Seq<i64>|
                #![trigger orbit_sum(series, a@, orbit@, c, next)]
                m * orbit_sum(series, a@, orbit@, c, next) == m * orbit_sum(
                    series,
                    a@,
                    orbit@,
                    c,
                    oi as int,
                ) + m * rs_contribution(series, a@, omega@, c) by {
                lemma_scale_step(
                    m as int,
                    orbit_sum(series, a@, orbit@, c, oi as int),
                    rs_contribution(series, a@, omega@, c),
                );
            }
        }
        match dominant_conjugate_signed(series, two_xi.as_slice()) {
            Some((dom, sign)) => {
                proof {
                    lemma_weyl_dominant_in_box(series, x, 5 * WEIGHT_BOUND);
                }
                // c = (dom - 2ρ)/2.
                let mut cv: Vec<i64> = Vec::new();
                let mut t: usize = 0;
                while t < r
                    invariant
                        r == tr@.len() == dom@.len() == a@.len(),
                        bounded(dom@, 5 * WEIGHT_BOUND),
                        bounded(tr@, 2 * RANK_BOUND),
                        forall|j: int| 0 <= j < r ==> #[trigger] tr@[j] == two_rho_entry(series, r as int, j),
                        keys@.len() == vals@.len(),
                        all_bounded(keys@, r as int, i64::MAX as int),
                        distinct_vecs(keys@),
                        t <= r,
                        cv@.len() == t,
                        bounded(cv@, i64::MAX as int),
                        forall|j: int|
                            0 <= j < t ==> #[trigger] cv@[j] == half_toward_zero(
                                dom@[j] - two_rho_entry(series, r as int, j),
                            ),
                    decreases r - t,
                {
                    let y = match dom[t].checked_sub(tr[t]) {
                        Some(y) => y,
                        None => return false,
                    };
                    cv.push(y / 2);
                    t = t + 1;
                }
                assert(cv@ =~= rs_target(series, x));
                proof {
                    lemma_conjugation_sign_unit(series, x);
                    lemma_scale_step(m as int, 0, sign as int);
                }
                let delta: i64 = if sign == 1 {
                    m
                } else {
                    -m
                };
                assert(forall|c: Seq<i64>|
                    #![trigger rs_contribution(series, a@, omega@, c)]
                    rs_contribution(series, a@, omega@, c) == if c == cv@ {
                        sign as int
                    } else {
                        0
                    });
                assert(m * (sign as int) == delta);
                match position_of(keys, cv.as_slice()) {
                    Some(p) => {
                        proof {
                            let c = cv@;
                            assert(keys@[p as int]@ == c);
                            assert(vals@[p as int] == base(c) + m * orbit_sum(
                                series,
                                a@,
                                orbit@,
                                c,
                                oi as int,
                            ));
                            assert(m * orbit_sum(series, a@, orbit@, c, next) == m * orbit_sum(
                                series,
                                a@,
                                orbit@,
                                c,
                                oi as int,
                            ) + m * rs_contribution(series, a@, omega@, c));
                            assert(rs_contribution(series, a@, omega@, c) == sign);
                            assert(running_total(series, a@, orbit@, m as int, base, c, next)
                                == vals@[p as int] + delta);
                        }
                        let n = match vals[p].checked_add(delta) {
                            Some(n) => n,
                            None => {
                                proof {
                                    assert(!(i64::MIN <= running_total(
                                        series,
                                        a@,
                                        orbit@,
                                        m as int,
                                        base,
                                        cv@,
                                        next,
                                    ) <= i64::MAX));
                                }
                                return false;
                            },
                        };
                        vals.set(p, n);
                        proof {
                            assert forall|q: int| 0 <= q < keys@.len() implies vals@[q] == base(
                                #[trigger] keys@[q]@,
                            ) + m * orbit_sum(series, a@, orbit@, keys@[q]@, next) by {
                                let c = keys@[q]@;
                                assert(m * orbit_sum(series, a@, orbit@, c, next) == m * orbit_sum(
                                    series,
                                    a@,
                                    orbit@,
                                    c,
                                    oi as int,
                                ) + m * rs_contribution(series, a@, omega@, c));
                                if q != p as int {
                                    assert(keys@[q]@ != keys@[p as int]@);
                                    assert(rs_contribution(series, a@, omega@, c) == 0);
                                    lemma_scale_step(m as int, 0, 0);
                                } else {
                                    assert(rs_contribution(series, a@, omega@, c) == sign);
                                }
                            }
                            assert forall|c: Seq<i64>| !#[trigger] holds_vec(keys@, c) implies base(c)
                                + m * orbit_sum(series, a@, orbit@, c, next) == 0 by {
                                assert(m * orbit_sum(series, a@, orbit@, c, next) == m * orbit_sum(
                                    series,
                                    a@,
                                    orbit@,
                                    c,
                                    oi as int,
                                ) + m * rs_contribution(series, a@, omega@, c));
                                if c == cv@ {
                                    assert(keys@[p as int]@ == c);
                                    assert(holds_vec(keys@, c));
                                }
                                assert(rs_contribution(series, a@, omega@, c) == 0);
                                lemma_scale_step(m as int, 0, 0);
                            }
                        }
                    },
                    None => {
                        proof {
                            assert(!holds_vec(keys@, cv@));
                        }
                        keys.push(cv);
                        vals.push(delta);
                        proof {
                            assert forall|q: int| 0 <= q < keys@.len() implies vals@[q] == base(
                                #[trigger] keys@[q]@,
                            ) + m * orbit_sum(series, a@, orbit@, keys@[q]@, next) by {
                                let c = keys@[q]@;
                                assert(m * orbit_sum(series, a@, orbit@, c, next) == m * orbit_sum(
                                    series,
                                    a@,
                                    orbit@,
                                    c,
                                    oi as int,
                                ) + m * rs_contribution(series, a@, omega@, c));
                                if q < before_keys.len() {
                                    assert(keys@[q] == before_keys[q]);
                                    assert(vals@[q] == before_vals[q]);
                                    assert(before_keys[q]@ != cv@);
                                    assert(rs_contribution(series, a@, omega@, c) == 0);
                                    lemma_scale_step(m as int, 0, 0);
                                } else {
                                    assert(c == cv@);
                                    assert(rs_contribution(series, a@, omega@, c) == sign);
                                }
                            }
                            assert forall|c: Seq<i64>| !#[trigger] holds_vec(keys@, c) implies base(c)
                                + m * orbit_sum(series, a@, orbit@, c, next) == 0 by {
                                assert(m * orbit_sum(series, a@, orbit@, c, next) == m * orbit_sum(
                                    series,
                                    a@,
                                    orbit@,
                                    c,
                                    oi as int,
                                ) + m * rs_contribution(series, a@, omega@, c));
                                if c == cv@ {
                                    assert(keys@[before_keys.len() as int]@ == c);
                                    assert(holds_vec(keys@, c));
                                }
                                if holds_vec(before_keys, c) {
                                    let k = choose|k: int|
                                        0 <= k < before_keys.len() && #[trigger] before_keys[k]@ == c;
                                    assert(keys@[k]@ == c);
                                }
                                assert(rs_contribution(series, a@, omega@, c) == 0);
                                lemma_scale_step(m as int, 0, 0);
                            }
                            assert forall|i: int, j: int| 0 <= i < j < keys@.len() implies #[trigger] keys@[i]@
                                != #[trigger] keys@[j]@ by {
                                if j == before_keys.len() {
                                    assert(keys@[i] == before_keys[i]);
                                }
                            }
                        }
                    },
                }
            },
            None => {
                proof {
                    assert forall|c: Seq<i64>|
                        #![trigger rs_contribution(series, a@, omega@, c)]
                        rs_contribution(series, a@, omega@, c) == 0 by {}
                    lemma_scale_step(m as int, 0, 0);
                }
            },
        }
        proof {
            assert forall|j: int, c: Seq<i64>| 0 <= j <= next implies i64::MIN <= #[trigger] running_total(
                series,
                a@,
                orbit@,
                m as int,
                base,
                c,
                j,
            ) <= i64::MAX by {
                if j == next {
                    if holds_vec(keys@, c) {
                        let q = choose|q: int| 0 <= q < keys@.len() && #[trigger] keys@[q]@ == c;
                        assert(vals@[q] == base(keys@[q]@) + m * orbit_sum(
                            series,
                            a@,
                            orbit@,
                            keys@[q]@,
                            next,
                        ));
                    } else {
                        assert(base(c) + m * orbit_sum(series, a@, orbit@, c, next) == 0);
                    }
                }
            }
        }
        oi = oi + 1;
    }
    true
}

/// The weight algorithms' box: rank at most [`RANK_BOUND`] and coordinates
/// at most [`WEIGHT_BOUND`] in size.
pub open spec fn weight_in_box(w: Seq<i64>) -> bool {
    &&& w.len() <= RANK_BOUND
    &&& bounded(w, WEIGHT_BOUND as int)
}

/// Whether a weight lies in the weight algorithms' box ([`weight_in_box`]).
fn in_box(w: &[i64]) -> (b: bool)
    ensures
        b == weight_in_box(w@),
{
    if w.len() > RANK_BOUND {
        return false;
    }
    let mut i: usize = 0;
    while i < w.len()
        invariant
            i <= w@.len(),
            forall|j: int| 0 <= j < i ==> -WEIGHT_BOUND <= #[trigger] w@[j] <= WEIGHT_BOUND,
        decreases w@.len() - i,
    {
        if w[i] < -WEIGHT_BOUND || w[i] > WEIGHT_BOUND {
            return false;
        }
        i = i + 1;
    }
    true
}

/// The coefficients accumulated from the first `i` dominant weights of `ms`
/// (their orbits listed in `os`).
pub open spec fn rs_base(
    series: Series,
    a: Seq<i64>,
    ms: Seq<(Vec<i64>, u64)>,
    os: Seq<Seq<Vec<i64>>>,
    i: int,
) -> spec_fn(Seq<i64>) -> int {
    |c: Seq<i64>| rs_partial(series, a, ms, os, c, i)
}

/// The Racah–Speiser accumulation over the exact multiplicity table `ms` of
/// `λ`, with the orbits of its first `i` entries listed in `os`, leaves the
/// integer types at entry `i`: its multiplicity exceeds `i64`, or, with `o`
/// listing its orbit, a running coefficient leaves `i64`.
pub open spec fn rs_overflows_at(
    series: Series,
    a: Seq<i64>,
    lam: Seq<i64>,
    ms: Seq<(Vec<i64>, u64)>,
    os: Seq<Seq<Vec<i64>>>,
    o: Seq<Vec<i64>>,
    i: int,
) -> bool {
    &&& multiplicities_wf(series, lam, ms)
    &&& multiplicities_exact(series, lam, ms)
    &&& 0 <= i < ms.len()
    &&& os.len() == i
    &&& forall|j: int| 0 <= j < i ==> orbit_listing(series, ms[j].0@, #[trigger] os[j])
    &&& (ms[i].1 > i64::MAX || (orbit_listing(series, ms[i].0@, o) && !running_fits(
        series,
        a,
        o,
        ms[i].1 as int,
        rs_base(series, a, ms, os, i),
    )))
}

/// Some irrep `c` gets a positive coefficient that exceeds `u32` or is not a
/// valid highest weight.
pub open spec fn rs_result_overflows(
    series: Series,
    a: Seq<i64>,
    ms: Seq<(Vec<i64>, u64)>,
    os: Seq<Seq<Vec<i64>>>,
) -> bool {
    exists|c: Seq<i64>|
        #[trigger] rs_coefficient(series, a, ms, os, c) > 0 && (rs_coefficient(series, a, ms, os, c)
            > u32::MAX || !weight_wf(series, c))
}

/// Exact tensor-product decomposition: the fusion multiplicities `N^c_ab` of
/// `a ⊗ b`, one entry per irrep `c` that occurs.
///
/// `a` and `b` must label the same group (same series and rank); a mismatch is
/// an ill-posed input across distinct groups and returns
/// [`BcdError::GroupMismatch`].
///
/// Algorithm (Racah–Speiser / Brauer–Klimyk): for every weight `μ` of `b`
/// (multiplicity `m_b(μ)` from Freudenthal, expanded over its Weyl orbit), form
/// `ξ = a + μ + ρ`. If `ξ` is Weyl-singular it contributes `0`; otherwise let
/// `w` make `ξ` dominant, and add `det(w)·m_b(μ)` to the coefficient of the
/// irrep with highest weight `w(ξ) − ρ`. All arithmetic is exact integer;
/// `ρ`-shifts are carried at twice scale. The result lists exactly the irreps
/// whose coefficient is positive ([`rs_decomposition`], over every listing of
/// the weights of `b`). [`BcdError::ArithmeticOverflow`] reports exactly:
/// weights outside the algorithms' box ([`weight_in_box`]); Freudenthal's
/// recursion for `b` leaving its integer types ([`multiplicities_fit`]); a
/// multiplicity or a running coefficient leaving `i64`
/// ([`rs_overflows_at`]); or a positive coefficient beyond `u32` or at a
/// weight that is not a highest weight ([`rs_result_overflows`]).
pub fn directproduct(a: &Irrep, b: &Irrep) -> (res: Result<Vec<(Irrep, u32)>, BcdError>)
    ensures
        match res {
            Err(BcdError::GroupMismatch { a: (sa, ra), b: (sb, rb) }) => {
                &&& (a.series_spec() != b.series_spec() || a.weight_spec().len()
                    != b.weight_spec().len())
                &&& sa == a.series_spec()
                &&& ra == a.weight_spec().len()
                &&& sb == b.series_spec()
                &&& rb == b.weight_spec().len()
            },
            Err(BcdError::ArithmeticOverflow) => {
                &&& a.series_spec() == b.series_spec()
                &&& a.weight_spec().len() == b.weight_spec().len()
                &&& {
                    ||| !weight_in_box(a.weight_spec())
                    ||| !weight_in_box(b.weight_spec())
                    ||| !multiplicities_fit(b.series_spec(), b.weight_spec())
                    ||| exists|
                        ms: Seq<(Vec<i64>, u64)>,
                        os: Seq<Seq<Vec<i64>>>,
                        o: Seq<Vec<i64>>,
                        i: int,
                    |
                        #[trigger] rs_overflows_at(
                            a.series_spec(),
                            a.weight_spec(),
                            b.weight_spec(),
                            ms,
                            os,
                            o,
                            i,
                        )
                    ||| exists|ms: Seq<(Vec<i64>, u64)>, os: Seq<Seq<Vec<i64>>>|
                        #[trigger] rs_listing(a.series_spec(), b.weight_spec(), ms, os)
                            && rs_result_overflows(a.series_spec(), a.weight_spec(), ms, os)
                }
            },
            Err(_) => false,
            Ok(v) => {
                &&& a.series_spec() == b.series_spec()
                &&& a.weight_spec().len() == b.weight_spec().len()
                &&& weight_in_box(a.weight_spec())
                &&& weight_in_box(b.weight_spec())
                &&& product_wf(a.series_spec(), a.weight_spec().len(), v@)
                &&& exists|ms: Seq<(Vec<i64>, u64)>, os: Seq<Seq<Vec<i64>>>|
                    #[trigger] rs_listing(a.series_spec(), b.weight_spec(), ms, os)
                        && rs_decomposition(a.series_spec(), a.weight_spec(), ms, os, v@)
            },
        },
{
    proof {
        use_type_invariant(a);
        use_type_invariant(b);
    }
    if a.series != b.series || a.weight.len() != b.weight.len() {
        return Err(
            BcdError::GroupMismatch {
                a: (a.series, a.weight.len()),
                b: (b.series, b.weight.len()),
            },
        );
    }
    if !in_box(a.weight.as_slice()) || !in_box(b.weight.as_slice()) {
        return Err(BcdError::ArithmeticOverflow);
    }
    let series = a.series;
    let r = a.weight.len();
    let tr = two_rho(series, r);
    // 2(a + ρ), constant across the μ loop.
    let mut two_a_rho: Vec<i64> = Vec::new();
    let mut t: usize = 0;
    while t < r
        invariant
            r == a.weight@.len() == tr@.len() <= RANK_BOUND,
            bounded(a.weight@, WEIGHT_BOUND as int),
            bounded(tr@, 2 * RANK_BOUND),
            forall|j: int| 0 <= j < r ==> #[trigger] tr@[j] == two_rho_entry(series, r as int, j),
            t <= r,
            two_a_rho@.len() == t,
            bounded(two_a_rho@, 3 * WEIGHT_BOUND),
            forall|j: int|
                0 <= j < t ==> #[trigger] two_a_rho@[j] == 2 * a.weight@[j] + two_rho_entry(
                    series,
                    r as int,
                    j,
                ),
        decreases r - t,
    {
        two_a_rho.push(2 * a.weight[t] + tr[t]);
        t = t + 1;
    }
    let mults = match b.weight_multiplicities() {
        Some(m) => m,
        None => return Err(BcdError::ArithmeticOverflow),
    };
    let ghost lam_a = a.weight@;
    let mut keys: Vec<Vec<i64>> = Vec::new();
    let mut vals: Vec<i64> = Vec::new();
    let ghost mut os: Seq<Seq<Vec<i64>>> = Seq::empty();
    let mut mi: usize = 0;
    while mi < mults.len()
        invariant
            r == a.weight@.len() == b.weight@.len() == tr@.len() == two_a_rho@.len(),
            lam_a == a.weight@,
            2 <= r <= RANK_BOUND,
            series == a.series,
            a.series == b.series,
            bounded(b.weight@, WEIGHT_BOUND as int),
            bounded(tr@, 2 * RANK_BOUND),
            bounded(two_a_rho@, 3 * WEIGHT_BOUND),
            forall|j: int| 0 <= j < r ==> #[trigger] tr@[j] == two_rho_entry(series, r as int, j),
            forall|j: int|
                0 <= j < r ==> #[trigger] two_a_rho@[j] == 2 * a.weight@[j] + two_rho_entry(
                    series,
                    r as int,
                    j,
                ),
            multiplicities_wf(series, b.weight@, mults@),
            multiplicities_exact(series, b.weight@, mults@),
            mi <= mults@.len(),
            os.len() == mi,
            forall|i: int| 0 <= i < mi ==> orbit_listing(series, mults@[i].0@, #[trigger] os[i]),
            keys@.len() == vals@.len(),
            all_bounded(keys@, r as int, i64::MAX as int),
            distinct_vecs(keys@),
            forall|p: int|
                0 <= p < keys@.len() ==> vals@[p] == rs_partial(
                    series,
                    lam_a,
                    mults@,
                    os,
                    #[trigger] keys@[p]@,
                    mi as int,
                ),
            forall|c: Seq<i64>|
                !#[trigger] holds_vec(keys@, c) ==> rs_partial(series, lam_a, mults@, os, c, mi as int)
                    == 0,
        decreases mults@.len() - mi,
    {
        let mu = mults[mi].0.as_slice();
        assert(dominant_below(series, b.weight@, b.weight@[0] as int, mults@[mi as int].0@));
        let m = mults[mi].1;
        if m > i64::MAX as u64 {
            proof {
                assert(rs_overflows_at(
                    series,
                    lam_a,
                    b.weight@,
                    mults@,
                    os,
                    Seq::<Vec<i64>>::empty(),
                    mi as int,
                ));
            }
            return Err(BcdError::ArithmeticOverflow);
        }
        let m = m as i64;
        let orbit = weyl_orbit(series, mu);
        let ghost base = rs_base(series, lam_a, mults@, os, mi as int);
        let ok = accumulate_orbit(
            series,
            a.weight.as_slice(),
            tr.as_slice(),
            two_a_rho.as_slice(),
            &orbit,
            m,
            &mut keys,
            &mut vals,
            Ghost(base),
        );
        if !ok {
            proof {
                assert(rs_overflows_at(series, lam_a, b.weight@, mults@, os, orbit@, mi as int));
            }
            return Err(BcdError::ArithmeticOverflow);
        }
        proof {
            let os2 = os.push(orbit@);
            let next = mi + 1;
            assert(os2[mi as int] == orbit@);
            assert forall|c: Seq<i64>|
                #![trigger rs_partial(series, lam_a, mults@, os2, c, next as int)]
                rs_partial(series, lam_a, mults@, os2, c, next as int) == base(c) + m * orbit_sum(
                    series,
                    lam_a,
                    orbit@,
                    c,
                    orbit@.len() as int,
                ) by {
                lemma_rs_partial_push(series, lam_a, mults@, os, orbit@, c, mi as int);
            }
            assert forall|p: int| 0 <= p < keys@.len() implies vals@[p] == rs_partial(
                series,
                lam_a,
                mults@,
                os2,
                #[trigger] keys@[p]@,
                next as int,
            ) by {}
            assert forall|c: Seq<i64>| !#[trigger] holds_vec(keys@, c) implies rs_partial(
                series,
                lam_a,
                mults@,
                os2,
                c,
                next as int,
            ) == 0 by {}
            assert forall|i: int| 0 <= i < next implies orbit_listing(
                series,
                mults@[i].0@,
                #[trigger] os2[i],
            ) by {
                if i < mi {
                    assert(os2[i] == os[i]);
                }
            }
            os = os2;
        }
        mi = mi + 1;
    }
    proof {
        assert(rs_listing(series, b.weight@, mults@, os));
    }
    let mut result: Vec<(Irrep, u32)> = Vec::new();
    let mut k: usize = 0;
    while k < keys.len()
        invariant
            rs_listing(series, b.weight@, mults@, os),
            keys@.len() == vals@.len(),
            distinct_vecs(keys@),
            all_bounded(keys@, r as int, i64::MAX as int),
            k <= keys@.len(),
            r == a.weight@.len() == b.weight@.len(),
            lam_a == a.weight@,
            a.series == b.series,
            series == a.series,
            product_wf(series, r as nat, result@),
            forall|t: int|
                0 <= t < result@.len() ==> exists|j: int|
                    0 <= j < k && #[trigger] result@[t].0.weight_spec() == keys@[j]@,
            forall|p: int|
                0 <= p < keys@.len() ==> vals@[p] == rs_coefficient(
                    series,
                    lam_a,
                    mults@,
                    os,
                    #[trigger] keys@[p]@,
                ),
            forall|t: int|
                0 <= t < result@.len() ==> (#[trigger] result@[t]).1 == rs_coefficient(
                    series,
                    lam_a,
                    mults@,
                    os,
                    result@[t].0.weight_spec(),
                ),
            forall|j: int| 0 <= j < k && vals@[j] > 0 ==> lists_weight(result@, #[trigger] keys@[j]@),
        decreases keys@.len() - k,
    {
        let n = vals[k];
        if n > 0 {
            if n > u32::MAX as i64 {
                proof {
                    assert(rs_coefficient(series, lam_a, mults@, os, keys@[k as int]@) == n);
                    assert(rs_result_overflows(series, lam_a, mults@, os));
                }
                return Err(BcdError::ArithmeticOverflow);
            }
            let c = copy_vec(keys[k].as_slice());
            if !is_weight_wf(series, c.as_slice()) {
                proof {
                    assert(rs_coefficient(series, lam_a, mults@, os, keys@[k as int]@) == n);
                    assert(rs_result_overflows(series, lam_a, mults@, os));
                }
                return Err(BcdError::ArithmeticOverflow);
            }
            let x = Irrep::from_weight(series, c);
            proof {
                assert forall|t: int| 0 <= t < result@.len() implies result@[t].0.weight_spec()
                    != x.weight_spec() by {
                    let j = choose|j: int|
                        0 <= j < k && #[trigger] result@[t].0.weight_spec() == keys@[j]@;
                    assert(keys@[j]@ != keys@[k as int]@);
                }
            }
            let ghost before = result@;
            result.push((x, n as u32));
            proof {
                assert(result@[result@.len() - 1].0.weight_spec() == keys@[k as int]@);
                assert forall|t: int| 0 <= t < result@.len() implies exists|j: int|
                    0 <= j < k + 1 && #[trigger] result@[t].0.weight_spec() == keys@[j]@ by {
                    if t < before.len() {
                        assert(result@[t] == before[t]);
                        let j = choose|j: int|
                            0 <= j < k && #[trigger] before[t].0.weight_spec() == keys@[j]@;
                        assert(result@[t].0.weight_spec() == keys@[j]@);
                    } else {
                        assert(result@[t].0.weight_spec() == keys@[k as int]@);
                    }
                }
                assert forall|t: int| 0 <= t < result@.len() implies (#[trigger] result@[t]).1
                    == rs_coefficient(series, lam_a, mults@, os, result@[t].0.weight_spec()) by {
                    if t < before.len() {
                        assert(result@[t] == before[t]);
                    }
                }
                assert forall|j: int| 0 <= j < k + 1 && vals@[j] > 0 implies lists_weight(
                    result@,
                    #[trigger] keys@[j]@,
                ) by {
                    if j < k {
                        assert(lists_weight(before, keys@[j]@));
                        let t = choose|t: int|
                            0 <= t < before.len() && (#[trigger] before[t]).0.weight_spec() == keys@[j]@;
                        assert(result@[t] == before[t]);
                    } else {
                        assert(result@[before.len() as int].0.weight_spec() == keys@[j]@);
                    }
                }
            }
        } else {
            proof {
                assert forall|t: int| 0 <= t < result@.len() implies exists|j: int|
                    0 <= j < k + 1 && #[trigger] result@[t].0.weight_spec() == keys@[j]@ by {
                    let j = choose|j: int|
                        0 <= j < k && #[trigger] result@[t].0.weight_spec() == keys@[j]@;
                    assert(result@[t].0.weight_spec() == keys@[j]@);
                }
                assert forall|j: int| 0 <= j < k + 1 && vals@[j] > 0 implies lists_weight(
                    result@,
                    #[trigger] keys@[j]@,
                ) by {
                    assert(j < k);
                }
            }
        }
        k = k + 1;
    }
    proof {
        assert(rs_listing(series, b.weight@, mults@, os));
        assert forall|c: Seq<i64>| #[trigger] rs_coefficient(series, lam_a, mults@, os, c) > 0 implies lists_weight(
            result@,
            c,
        ) by {
            if holds_vec(keys@, c) {
                let j = choose|j: int| 0 <= j < keys@.len() && #[trigger] keys@[j]@ == c;
                assert(vals@[j] > 0);
            }
        }
        assert(rs_decomposition(series, lam_a, mults@, os, result@));
    }
    Ok(result)
}


// ---- the Weyl dimension formula ------------------------------------------------

/// `Π_{α} (2⟨λ,α⟩ + ⟨2ρ,α⟩)` over the roots `roots`.
pub open spec fn weyl_num(lam: Seq<i64>, tr: Seq<i64>, roots: Seq<Seq<i64>>) -> int
    decreases roots.len(),
{
    if roots.len() == 0 {
        1
    } else {
        weyl_num(lam, tr, roots.drop_last()) * (2 * dot_spec(roots.last(), lam) + dot_spec(
            roots.last(),
            tr,
        ))
    }
}

/// `Π_{α} ⟨2ρ,α⟩` over the roots `roots`.
pub open spec fn weyl_den(tr: Seq<i64>, roots: Seq<Seq<i64>>) -> int
    decreases roots.len(),
{
    if roots.len() == 0 {
        1
    } else {
        weyl_den(tr, roots.drop_last()) * dot_spec(roots.last(), tr)
    }
}

/// The Weyl dimension `Π_{α>0} ⟨λ+ρ,α⟩ / ⟨ρ,α⟩` of the irrep with highest
/// weight `lam`, over the positive roots.
pub open spec fn dim_spec(series: Series, lam: Seq<i64>) -> int {
    let r = lam.len() as int;
    let roots = positive_roots_spec(series, r);
    let tr = two_rho_seq(series, r);
    weyl_num(lam, tr, roots) / weyl_den(tr, roots)
}

/// For a dominant `λ` and a positive root `α`: `0 ≤ ⟨λ,α⟩ ≤ 2^65` and
/// `1 ≤ ⟨2ρ,α⟩ ≤ 8·RANK_BOUND`.
proof fn lemma_root_factor(series: Series, lam: Seq<i64>, alpha: Seq<i64>)
    requires
        weight_wf(series, lam),
        lam.len() <= RANK_BOUND,
        is_positive_root(series, lam.len() as int, alpha),
    ensures
        0 <= dot_spec(alpha, lam) <= 0x2_0000_0000_0000_0000,
        1 <= dot_spec(alpha, two_rho_seq(series, lam.len() as int)) <= 8 * RANK_BOUND,
{
    let r = lam.len() as int;
    let tr = two_rho_seq(series, r);
    if exists|i: int, j: int| 0 <= i < j < r && alpha == #[trigger] root_vec(r, i, j, 1, -1) {
        let (i, j) = choose|i: int, j: int|
            0 <= i < j < r && alpha == #[trigger] root_vec(r, i, j, 1, -1);
        lemma_dot_root_vec(lam, r, i, j, 1, -1);
        lemma_dot_root_vec(tr, r, i, j, 1, -1);
        if series == Series::D && j == r - 1 {
            assert(lam[i] >= lam[r - 2]);
        }
    } else if exists|i: int, j: int| 0 <= i < j < r && alpha == #[trigger] root_vec(r, i, j, 1, 1) {
        let (i, j) = choose|i: int, j: int|
            0 <= i < j < r && alpha == #[trigger] root_vec(r, i, j, 1, 1);
        lemma_dot_root_vec(lam, r, i, j, 1, 1);
        lemma_dot_root_vec(tr, r, i, j, 1, 1);
        if series == Series::D && j == r - 1 {
            assert(lam[i] >= lam[r - 2]);
        }
    } else if series == Series::B {
        let i = choose|i: int| 0 <= i < r && alpha == #[trigger] root_vec(r, i, i, 1, 1);
        lemma_dot_root_vec(lam, r, i, i, 1, 1);
        lemma_dot_root_vec(tr, r, i, i, 1, 1);
    } else {
        let i = choose|i: int| 0 <= i < r && alpha == #[trigger] root_vec(r, i, i, 2, 2);
        lemma_dot_root_vec(lam, r, i, i, 2, 2);
        lemma_dot_root_vec(tr, r, i, i, 2, 2);
    }
}

impl Irrep {
    /// The exact Weyl dimension `Π_{α>0} ⟨λ+ρ,α⟩ / ⟨ρ,α⟩`, evaluated over the
    /// positive roots as `Π (2⟨λ,α⟩ + ⟨2ρ,α⟩) / Π ⟨2ρ,α⟩` in big integers (the
    /// quotient is exact). Each factor is formed in `i128`, so every weight
    /// is accepted; the rank is at most [`RANK_BOUND`], as the `r(r-1)`
    /// positive roots of length `r` are held at once.
    pub fn dim(&self) -> (d: BigInt)
        requires
            self.weight_spec().len() <= RANK_BOUND,
        ensures
            bigint_value(d) == dim_spec(self.series_spec(), self.weight_spec()),
    {
        proof {
            use_type_invariant(self);
        }
        let r = self.weight.len();
        let lam = self.weight.as_slice();
        let tr = two_rho(self.series, r);
        let roots = positive_roots(self.series, r);
        let ghost all = vec_views(roots@);
        proof {
            assert(tr@ =~= two_rho_seq(self.series, r as int));
        }
        let mut num = big_from_u64(1);
        let mut den = big_from_u64(1);
        let mut k: usize = 0;
        while k < roots.len()
            invariant
                r == lam@.len() <= RANK_BOUND,
                lam@ == self.weight@,
                weight_wf(self.series, lam@),
                tr@ == two_rho_seq(self.series, r as int),
                bounded(tr@, 2 * RANK_BOUND),
                all == vec_views(roots@),
                all == positive_roots_spec(self.series, r as int),
                crate::weyl::all_positive_roots(self.series, r as int, roots@),
                k <= roots@.len(),
                bigint_value(num) == weyl_num(lam@, tr@, all.take(k as int)),
                bigint_value(den) == weyl_den(tr@, all.take(k as int)),
                bigint_value(num) >= 1,
                bigint_value(den) >= 1,
            decreases roots@.len() - k,
        {
            let alpha = roots[k].as_slice();
            proof {
                assert(all[k as int] == alpha@);
                lemma_root_factor(self.series, lam@, alpha@);
                assert(all.take(k + 1).drop_last() =~= all.take(k as int));
                assert(all.take(k + 1).last() == alpha@);
            }
            let two_lam: i128 = 2 * dot_wide(alpha, lam);
            let two_rho_a = dot(alpha, tr.as_slice());
            let f = big_from_u128((two_lam + two_rho_a as i128) as u128);
            let g = big_from_u64(two_rho_a as u64);
            let ghost n0 = bigint_value(num);
            let ghost d0 = bigint_value(den);
            num = big_mul(&num, &f);
            den = big_mul(&den, &g);
            proof {
                assert(n0 * (two_lam + two_rho_a) >= 1) by (nonlinear_arith)
                    requires
                        n0 >= 1,
                        two_lam + two_rho_a >= 1,
                ;
                assert(d0 * two_rho_a >= 1) by (nonlinear_arith)
                    requires
                        d0 >= 1,
                        two_rho_a >= 1,
                ;
            }
            k = k + 1;
        }
        proof {
            assert(all.take(roots@.len() as int) =~= all);
        }
        big_div(&num, &den)
    }
}

} // verus!
