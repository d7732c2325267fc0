//! Root datum plus global form: which dominant weights are genuine
//! representations of *which group*.
//!
//! Specifying the Lie algebra does not specify the group: `so(N)` is the
//! algebra of both `Spin(N)` and `SO(N) = Spin(N)/Z2`, `su(N)` the algebra of
//! `SU(N)`, of every `SU(N)/Z_k` with `k | N`, and of `PSU(N)`. These groups
//! differ only in which dominant integral highest weights are genuine group
//! representations: a global form deletes irreps, it never changes a
//! coefficient.
//!
//! With `Z = Z(G_sc) = P/Q`, every connected compact group with root system
//! `R` is `G_sc/Γ` for some `Γ ⊆ Z`, and `Irr(G_sc/Γ)` is the set of dominant
//! weights whose central character is trivial on `Γ`. The character depends
//! on the weight only through its class in `P/Q`, and the class map is
//! additive, so admissibility is closed under adding Dynkin labels (proved
//! below as [`lemma_admits_closed_under_sum`]).
//!
//! Dynkin labels are in Bourbaki numbering. Two conventions are fixed here:
//!
//! 1. `D_r`, `r` even: half-spin forms are named by the class they retain.
//! 2. `D_r`, `r` odd: the `Z4` class uses the generator `[ω_r]`, so
//!    `κ(λ) ≡ a_r − a_{r-1} + 2·Σ_{i odd ≤ r-2} aᵢ (mod 4)`.

use vstd::prelude::*;

verus! {

/// Root system of a simple compact Lie algebra, by Cartan letter and rank.
///
/// The rank is the number of Dynkin labels a weight carries.
#[derive(Clone, Copy, Debug, PartialEq, Eq, Structural, Hash, PartialOrd, Ord)]
#[non_exhaustive]
pub enum RootSystem {
    /// `A_r`, center `Z_{r+1}`. Simply connected form `SU(r+1)`.
    A(usize),
    /// `B_r`, center `Z2`. Simply connected form `Spin(2r+1)`.
    B(usize),
    /// `C_r`, center `Z2`. Simply connected form `Sp(2r)`.
    C(usize),
    /// `D_r`, center `Z2×Z2` (`r` even) or `Z4` (`r` odd).
    D(usize),
    /// `G_2`, trivial center.
    G2,
    /// `F_4`, trivial center.
    F4,
    /// `E_6`, center `Z3`.
    E6,
    /// `E_7`, center `Z2`.
    E7,
    /// `E_8`, trivial center.
    E8,
}

/// The rank of a root system, as a mathematical value.
pub open spec fn rank_of(rs: RootSystem) -> nat {
    match rs {
        RootSystem::A(r) => r as nat,
        RootSystem::B(r) => r as nat,
        RootSystem::C(r) => r as nat,
        RootSystem::D(r) => r as nat,
        RootSystem::G2 => 2,
        RootSystem::F4 => 4,
        RootSystem::E6 => 6,
        RootSystem::E7 => 7,
        RootSystem::E8 => 8,
    }
}

impl RootSystem {
    /// The rank: the number of Dynkin labels a weight of this root system
    /// carries.
    pub fn rank(self) -> (r: usize)
        ensures
            r == rank_of(self),
    {
        match self {
            RootSystem::A(r) => r,
            RootSystem::B(r) => r,
            RootSystem::C(r) => r,
            RootSystem::D(r) => r,
            RootSystem::G2 => 2,
            RootSystem::F4 => 4,
            RootSystem::E6 => 6,
            RootSystem::E7 => 7,
            RootSystem::E8 => 8,
        }
    }
}

/// The subgroup `Γ ⊆ Z(G_sc)` that is quotiented out.
///
/// A variant is only meaningful for the root systems named in its docs;
/// [`GroupId::admits`] returns `false` for any other pairing.
#[derive(Clone, Copy, Debug, PartialEq, Eq, Structural, Hash, PartialOrd, Ord)]
#[non_exhaustive]
pub enum CenterSubgroup {
    /// `A_r`: the `Z_k ⊆ Z_{r+1}`; requires `k | r+1`. Admissible iff the
    /// `N`-ality `Σ i·aᵢ ≡ 0 (mod k)`.
    Zk(usize),
    /// `B_r`, `C_r`, and `D_r` for `r` odd: the unique `Z2 ⊆ Z`.
    Z2,
    /// `D_r`, `r` odd: the full center `Z4 = ⟨[ω_r]⟩`, giving `PSO(2r)`.
    /// Admissible iff `κ(λ) ≡ 0 (mod 4)`.
    Z4,
    /// `D_r`: the subgroup whose retained classes are the tensor classes; this
    /// is `SO(2r)`. Admissible iff `a_{r-1} + a_r` is even.
    DVector,
    /// `D_r`, `r` even: the half-spin form that retains `[ω_r]`.
    DHalfSpinPlus,
    /// `D_r`, `r` even: the half-spin form that retains `[ω_{r-1}]`.
    DHalfSpinMinus,
    /// `D_r`, `r` even: the full center `Z2×Z2`, giving `PSO(2r)`.
    DFull,
}

/// Which connected compact group with a given root system: the cover, or a
/// quotient by a subgroup of its center.
#[derive(Clone, Copy, Debug, PartialEq, Eq, Structural, Hash, PartialOrd, Ord)]
pub enum GlobalForm {
    /// The simply connected form: every dominant integral weight is a
    /// representation.
    SimplyConnected,
    /// `G_sc/Γ`.
    Quotient(CenterSubgroup),
}

/// A connected compact simple group, as a root datum: root system plus
/// global form. The fields are public; a pairing of a [`CenterSubgroup`] with
/// a root system whose center does not contain it admits no weight at all.
#[derive(Clone, Copy, Debug, PartialEq, Eq, Structural, Hash, PartialOrd, Ord)]
pub struct GroupId {
    /// The root system (and hence the Lie algebra).
    pub root_system: RootSystem,
    /// Which quotient of the simply connected form.
    pub form: GlobalForm,
}

/// Error from a [`GroupId`] constructor. Constructors never panic.
#[derive(Clone, Debug, PartialEq, Eq)]
#[non_exhaustive]
pub enum GroupError {
    /// The requested rank or matrix dimension is outside the range for which
    /// the family is defined (e.g. `so(2)`, `sp(3)`, `half_spin_plus(10)`).
    UnsupportedRank {
        /// The constructor family that rejected, e.g. `"so"`.
        family: &'static str,
        /// The rejected argument.
        value: usize,
    },
    /// `Z_k` is not a subgroup of the `SU(n)` center: `k` does not divide `n`
    /// (or `k = 0`).
    NotACenterSubgroup {
        /// The `n` of `SU(n)`.
        n: usize,
        /// The requested subgroup order.
        k: usize,
    },
}

// ---- mathematical model of admissibility ---------------------------------

/// `Σ_{i < n, i even} d[i]`: the 1-based odd positions among the first `n`
/// labels.
pub open spec fn odd_sum(d: Seq<i64>, n: nat) -> int
    decreases n,
{
    if n == 0 {
        0
    } else {
        odd_sum(d, (n - 1) as nat) + if (n - 1) % 2 == 0 {
            d[n - 1] as int
        } else {
            0
        }
    }
}

/// The `N`-ality `Σ_{i < n} (i+1)·d[i]` of an `A_r` weight.
pub open spec fn nality(d: Seq<i64>, n: nat) -> int
    decreases n,
{
    if n == 0 {
        0
    } else {
        nality(d, (n - 1) as nat) + (n as int) * (d[n - 1] as int)
    }
}

/// The `Z4` central class `κ(λ) ∈ {0,1,2,3}` of a `D_r` weight (`r` odd, at
/// least 2 labels), under the generator `[ω_r]`.
pub open spec fn d_odd_class_spec(d: Seq<i64>) -> int {
    let r = d.len();
    (d[r - 1] - d[r - 2] + 2 * odd_sum(d, (r - 2) as nat)) % 4
}

/// Whether every label is non-negative.
pub open spec fn all_nonneg(d: Seq<i64>) -> bool {
    forall|i: int| 0 <= i < d.len() ==> d[i] >= 0
}

/// The admissibility predicate of a quotient form `sub` on a label of
/// matching length `r = d.len()`.
pub open spec fn quotient_admits(rs: RootSystem, sub: CenterSubgroup, d: Seq<i64>) -> bool {
    let r = d.len();
    match rs {
        RootSystem::A(_) => match sub {
            CenterSubgroup::Zk(k) => k != 0 && (r as int + 1) % (k as int) == 0 && nality(d, r) % (k as int)
                == 0,
            _ => false,
        },
        RootSystem::B(_) => match sub {
            CenterSubgroup::Z2 => r >= 1 && d[r - 1] % 2 == 0,
            _ => false,
        },
        RootSystem::C(_) => match sub {
            CenterSubgroup::Z2 => odd_sum(d, r) % 2 == 0,
            _ => false,
        },
        RootSystem::D(_) => {
            if r >= 2 && (sub == CenterSubgroup::Z2 || sub == CenterSubgroup::DVector) {
                (d[r - 2] + d[r - 1]) % 2 == 0
            } else if r >= 3 && r % 2 == 1 && sub == CenterSubgroup::Z4 {
                d_odd_class_spec(d) == 0
            } else if r >= 2 && r % 2 == 0 {
                let t = odd_sum(d, (r - 2) as nat);
                let p = (d[r - 2] + t) % 2;
                let q = (d[r - 1] + t) % 2;
                match sub {
                    CenterSubgroup::DHalfSpinPlus => p == 0,
                    CenterSubgroup::DHalfSpinMinus => q == 0,
                    CenterSubgroup::DFull => p == 0 && q == 0,
                    _ => false,
                }
            } else {
                false
            }
        },
        _ => false,
    }
}

/// Whether the Dynkin label `d` is a genuine representation of `g`.
pub open spec fn admits_spec(g: GroupId, d: Seq<i64>) -> bool {
    &&& d.len() == rank_of(g.root_system)
    &&& all_nonneg(d)
    &&& match g.form {
        GlobalForm::SimplyConnected => true,
        GlobalForm::Quotient(sub) => quotient_admits(g.root_system, sub, d),
    }
}

// ---- executable helpers ---------------------------------------------------

/// `x mod m` in `[0, m)` for the moduli 2 and 4 used by the central classes.
fn mod_euclid(x: i64, m: i64) -> (r: i64)
    requires
        m == 2 || m == 4,
    ensures
        r == x % m,
        0 <= r < m,
{
    if m == 2 {
        let r = x % 2;
        if r < 0 {
            r + 2
        } else {
            r
        }
    } else {
        let r = x % 4;
        if r < 0 {
            r + 4
        } else {
            r
        }
    }
}

/// `odd_sum(d, n) mod m`, accumulated without overflow.
fn odd_index_sum_mod(d: &[i64], n: usize, m: i64) -> (r: i64)
    requires
        n <= d.len(),
        m == 2 || m == 4,
    ensures
        r == odd_sum(d@, n as nat) % (m as int),
        0 <= r < m,
{
    let mut acc: i64 = 0;
    let mut i: usize = 0;
    while i < n
        invariant
            i <= n <= d.len(),
            m == 2 || m == 4,
            0 <= acc < m,
            acc == odd_sum(d@, i as nat) % (m as int),
        decreases n - i,
    {
        let ghost before = odd_sum(d@, i as nat);
        if i % 2 == 0 {
            let x = mod_euclid(d[i], m);
            proof {
                vstd::arithmetic::div_mod::lemma_add_mod_noop(before, d@[i as int] as int, m as int);
                vstd::arithmetic::div_mod::lemma_mod_twice(d@[i as int] as int, m as int);
            }
            acc = mod_euclid(acc + x, m);
        }
        i = i + 1;
    }
    acc
}

/// `nality(d, d.len()) mod k`, accumulated in `u128` without overflow.
fn nality_mod(d: &[i64], k: usize) -> (r: u128)
    requires
        k > 0,
        all_nonneg(d@),
    ensures
        r as int == nality(d@, d.len() as nat) % (k as int),
{
    let kk = k as u128;
    let mut acc: u128 = 0;
    let mut i: usize = 0;
    proof {
        assert(nality(d@, 0) == 0);
        vstd::arithmetic::div_mod::lemma_small_mod(0, k as nat);
    }
    while i < d.len()
        invariant
            i <= d.len(),
            kk == k as u128,
            kk > 0,
            all_nonneg(d@),
            acc < kk,
            acc as int == nality(d@, i as nat) % (k as int),
        decreases d.len() - i,
    {
        let ghost before = nality(d@, i as nat);
        let a = d[i] as u128;
        let w = (i as u128) + 1;
        proof {
            assert(w < 0x1_0000_0000_0000_0001);
            assert(a < 0x8000_0000_0000_0000);
            assert(w * a <= 0x1_0000_0000_0000_0000 * 0x8000_0000_0000_0000) by (nonlinear_arith)
                requires
                    w <= 0x1_0000_0000_0000_0000,
                    a < 0x8000_0000_0000_0000,
            ;
        }
        let term = (w * a) % kk;
        proof {
            assert(nality(d@, (i + 1) as nat) == before + (w as int) * (d@[i as int] as int));
            vstd::arithmetic::div_mod::lemma_add_mod_noop(before, (w * a) as int, k as int);
        }
        acc = (acc + term) % kk;
        i = i + 1;
    }
    acc
}

/// The `Z4` central class `κ(λ) ∈ {0,1,2,3}` of a `D_r` weight with `r` odd,
/// under the generator `c = [ω_r]`:
/// `κ(λ) ≡ a_r − a_{r-1} + 2·Σ_{i odd ≤ r-2} aᵢ (mod 4)`.
///
/// Returns `0` for a label shorter than 2.
pub fn d_odd_central_class(dynkin: &[i64]) -> (c: i64)
    ensures
        dynkin.len() < 2 ==> c == 0,
        dynkin.len() >= 2 ==> c == d_odd_class_spec(dynkin@),
        0 <= c < 4,
{
    if dynkin.len() < 2 {
        return 0;
    }
    d_odd_class(dynkin)
}

fn d_odd_class(dynkin: &[i64]) -> (c: i64)
    requires
        dynkin.len() >= 2,
    ensures
        c == d_odd_class_spec(dynkin@),
        0 <= c < 4,
{
    let r = dynkin.len();
    let ar = mod_euclid(dynkin[r - 1], 4);
    let ar1 = mod_euclid(dynkin[r - 2], 4);
    let t = odd_index_sum_mod(dynkin, r - 2, 4);
    let ghost x = dynkin@[r - 1] as int;
    let ghost y = dynkin@[r - 2] as int;
    let ghost s = odd_sum(dynkin@, (r - 2) as nat);
    proof {
        vstd::arithmetic::div_mod::lemma_sub_mod_noop(x, y, 4);
        vstd::arithmetic::div_mod::lemma_add_mod_noop(x - y, 2 * s, 4);
        vstd::arithmetic::div_mod::lemma_mul_mod_noop_right(2, s, 4);
        vstd::arithmetic::div_mod::lemma_mod_twice(x - y, 4);
        vstd::arithmetic::div_mod::lemma_add_mod_noop((ar - ar1) as int, 2 * t as int, 4);
        vstd::arithmetic::div_mod::lemma_mod_twice(2 * s, 4);
    }
    mod_euclid(ar - ar1 + 2 * t, 4)
}

fn sp_rank(m: usize) -> (res: Result<usize, GroupError>)
    ensures
        (m < 2 || m % 2 != 0) ==> res == Err::<usize, GroupError>(
            GroupError::UnsupportedRank { family: "sp", value: m },
        ),
        !(m < 2 || m % 2 != 0) ==> res == Ok::<usize, GroupError>(m / 2),
{
    if m < 2 || m % 2 != 0 {
        return Err(GroupError::UnsupportedRank { family: "sp", value: m });
    }
    Ok(m / 2)
}

/// The orthogonal root system of matrix dimension `n`.
pub open spec fn orthogonal_spec(n: usize) -> RootSystem {
    if n % 2 == 1 {
        RootSystem::B(((n - 1) / 2) as usize)
    } else {
        RootSystem::D((n / 2) as usize)
    }
}

/// `B((n-1)/2)` or `D(n/2)`, from the matrix dimension `n ≥ 3`.
fn orthogonal(n: usize, family: &'static str) -> (res: Result<RootSystem, GroupError>)
    ensures
        n < 3 ==> res == Err::<RootSystem, GroupError>(
            GroupError::UnsupportedRank { family, value: n },
        ),
        n >= 3 ==> res == Ok::<RootSystem, GroupError>(orthogonal_spec(n)),
{
    if n < 3 {
        Err(GroupError::UnsupportedRank { family, value: n })
    } else if n % 2 == 1 {
        Ok(RootSystem::B((n - 1) / 2))
    } else {
        Ok(RootSystem::D(n / 2))
    }
}

fn half_spin_root_system(n: usize) -> (res: Result<RootSystem, GroupError>)
    ensures
        (n < 8 || n % 4 != 0) ==> res == Err::<RootSystem, GroupError>(
            GroupError::UnsupportedRank { family: "half_spin", value: n },
        ),
        !(n < 8 || n % 4 != 0) ==> res == Ok::<RootSystem, GroupError>(
            RootSystem::D((n / 2) as usize),
        ),
{
    // n = 2r with r even ⇔ n ≡ 0 (mod 4); r ≥ 4 keeps the two chiralities
    // distinct.
    if n < 8 || n % 4 != 0 {
        return Err(GroupError::UnsupportedRank { family: "half_spin", value: n });
    }
    Ok(RootSystem::D(n / 2))
}

impl GroupId {
    /// `SU(n)`: `A(n-1)`, simply connected. Requires `n ≥ 2`.
    pub fn su(n: usize) -> (res: Result<Self, GroupError>)
        ensures
            n < 2 ==> res == Err::<Self, GroupError>(
                GroupError::UnsupportedRank { family: "su", value: n },
            ),
            n >= 2 ==> res == Ok::<Self, GroupError>(
                GroupId {
                    root_system: RootSystem::A((n - 1) as usize),
                    form: GlobalForm::SimplyConnected,
                },
            ),
    {
        if n < 2 {
            return Err(GroupError::UnsupportedRank { family: "su", value: n });
        }
        Ok(GroupId { root_system: RootSystem::A(n - 1), form: GlobalForm::SimplyConnected })
    }

    /// `SU(n)/Z_k`: requires `n ≥ 2` and `k | n`. `k = 1` is [`Self::su`],
    /// `k = n` is [`Self::psu`].
    pub fn su_quotient(n: usize, k: usize) -> (res: Result<Self, GroupError>)
        ensures
            n < 2 ==> res == Err::<Self, GroupError>(
                GroupError::UnsupportedRank { family: "su", value: n },
            ),
            n >= 2 && (k == 0 || n % k != 0) ==> res == Err::<Self, GroupError>(
                GroupError::NotACenterSubgroup { n, k },
            ),
            n >= 2 && k != 0 && n % k == 0 ==> res == Ok::<Self, GroupError>(
                GroupId {
                    root_system: RootSystem::A((n - 1) as usize),
                    form: GlobalForm::Quotient(CenterSubgroup::Zk(k)),
                },
            ),
    {
        if n < 2 {
            return Err(GroupError::UnsupportedRank { family: "su", value: n });
        }
        if k == 0 || n % k != 0 {
            return Err(GroupError::NotACenterSubgroup { n, k });
        }
        Ok(
            GroupId {
                root_system: RootSystem::A(n - 1),
                form: GlobalForm::Quotient(CenterSubgroup::Zk(k)),
            },
        )
    }

    /// `PSU(n) = SU(n)/Z_n`, the adjoint form.
    pub fn psu(n: usize) -> (res: Result<Self, GroupError>)
        ensures
            n < 2 ==> res == Err::<Self, GroupError>(
                GroupError::UnsupportedRank { family: "su", value: n },
            ),
            n >= 2 ==> res == Ok::<Self, GroupError>(
                GroupId {
                    root_system: RootSystem::A((n - 1) as usize),
                    form: GlobalForm::Quotient(CenterSubgroup::Zk(n)),
                },
            ),
    {
        Self::su_quotient(n, n)
    }

    /// `Sp(m)`: `C(m/2)`, simply connected. `m` is the matrix dimension and
    /// must be even and `≥ 2`.
    pub fn sp(m: usize) -> (res: Result<Self, GroupError>)
        ensures
            (m < 2 || m % 2 != 0) ==> res == Err::<Self, GroupError>(
                GroupError::UnsupportedRank { family: "sp", value: m },
            ),
            !(m < 2 || m % 2 != 0) ==> res == Ok::<Self, GroupError>(
                GroupId {
                    root_system: RootSystem::C((m / 2) as usize),
                    form: GlobalForm::SimplyConnected,
                },
            ),
    {
        let r = sp_rank(m)?;
        Ok(GroupId { root_system: RootSystem::C(r), form: GlobalForm::SimplyConnected })
    }

    /// `PSp(m) = Sp(m)/Z2`, the adjoint form.
    pub fn psp(m: usize) -> (res: Result<Self, GroupError>)
        ensures
            (m < 2 || m % 2 != 0) ==> res == Err::<Self, GroupError>(
                GroupError::UnsupportedRank { family: "sp", value: m },
            ),
            !(m < 2 || m % 2 != 0) ==> res == Ok::<Self, GroupError>(
                GroupId {
                    root_system: RootSystem::C((m / 2) as usize),
                    form: GlobalForm::Quotient(CenterSubgroup::Z2),
                },
            ),
    {
        let r = sp_rank(m)?;
        Ok(
            GroupId {
                root_system: RootSystem::C(r),
                form: GlobalForm::Quotient(CenterSubgroup::Z2),
            },
        )
    }

    /// `Spin(n)`: `B((n-1)/2)` or `D(n/2)` by the parity of `n`, simply
    /// connected. `n ≥ 3` is the matrix dimension of the `SO(n)` it covers.
    pub fn spin(n: usize) -> (res: Result<Self, GroupError>)
        ensures
            n < 3 ==> res == Err::<Self, GroupError>(
                GroupError::UnsupportedRank { family: "spin", value: n },
            ),
            n >= 3 ==> res == Ok::<Self, GroupError>(
                GroupId { root_system: orthogonal_spec(n), form: GlobalForm::SimplyConnected },
            ),
    {
        let root_system = orthogonal(n, "spin")?;
        Ok(GroupId { root_system, form: GlobalForm::SimplyConnected })
    }

    /// `SO(n) = Spin(n)/Z2`, the vector form. `n ≥ 3`. For `D_r` the quotient
    /// is named by the class it retains ([`CenterSubgroup::DVector`]).
    pub fn so(n: usize) -> (res: Result<Self, GroupError>)
        ensures
            n < 3 ==> res == Err::<Self, GroupError>(
                GroupError::UnsupportedRank { family: "so", value: n },
            ),
            n >= 3 && n % 2 == 1 ==> res == Ok::<Self, GroupError>(
                GroupId {
                    root_system: orthogonal_spec(n),
                    form: GlobalForm::Quotient(CenterSubgroup::Z2),
                },
            ),
            n >= 3 && n % 2 == 0 ==> res == Ok::<Self, GroupError>(
                GroupId {
                    root_system: orthogonal_spec(n),
                    form: GlobalForm::Quotient(CenterSubgroup::DVector),
                },
            ),
    {
        let root_system = orthogonal(n, "so")?;
        let sub = match root_system {
            RootSystem::D(_) => CenterSubgroup::DVector,
            _ => CenterSubgroup::Z2,
        };
        Ok(GroupId { root_system, form: GlobalForm::Quotient(sub) })
    }

    /// `PSO(n)`, the adjoint form. For `n` odd this is `SO(n)`; for `n = 2r`
    /// it is the quotient by the full center (`Z2×Z2` for `r` even, `Z4` for
    /// `r` odd).
    pub fn pso(n: usize) -> (res: Result<Self, GroupError>)
        ensures
            n < 3 ==> res == Err::<Self, GroupError>(
                GroupError::UnsupportedRank { family: "pso", value: n },
            ),
            n >= 3 && n % 2 == 1 ==> res == Ok::<Self, GroupError>(
                GroupId {
                    root_system: orthogonal_spec(n),
                    form: GlobalForm::Quotient(CenterSubgroup::Z2),
                },
            ),
            n >= 3 && n % 4 == 0 ==> res == Ok::<Self, GroupError>(
                GroupId {
                    root_system: orthogonal_spec(n),
                    form: GlobalForm::Quotient(CenterSubgroup::DFull),
                },
            ),
            n >= 3 && n % 4 == 2 ==> res == Ok::<Self, GroupError>(
                GroupId {
                    root_system: orthogonal_spec(n),
                    form: GlobalForm::Quotient(CenterSubgroup::Z4),
                },
            ),
    {
        let root_system = orthogonal(n, "pso")?;
        let sub = match root_system {
            RootSystem::B(_) => CenterSubgroup::Z2,
            RootSystem::D(r) => {
                if r % 2 == 0 {
                    CenterSubgroup::DFull
                } else {
                    CenterSubgroup::Z4
                }
            },
            _ => CenterSubgroup::Z4,
        };
        Ok(GroupId { root_system, form: GlobalForm::Quotient(sub) })
    }

    /// The half-spin form of `Spin(n)` that retains the `[ω_r]` chirality.
    /// Requires `n ≡ 0 (mod 4)`, `n ≥ 8`.
    pub fn half_spin_plus(n: usize) -> (res: Result<Self, GroupError>)
        ensures
            (n < 8 || n % 4 != 0) ==> res == Err::<Self, GroupError>(
                GroupError::UnsupportedRank { family: "half_spin", value: n },
            ),
            !(n < 8 || n % 4 != 0) ==> res == Ok::<Self, GroupError>(
                GroupId {
                    root_system: RootSystem::D((n / 2) as usize),
                    form: GlobalForm::Quotient(CenterSubgroup::DHalfSpinPlus),
                },
            ),
    {
        let root_system = half_spin_root_system(n)?;
        Ok(GroupId { root_system, form: GlobalForm::Quotient(CenterSubgroup::DHalfSpinPlus) })
    }

    /// The half-spin form of `Spin(n)` that retains the `[ω_{r-1}]`
    /// chirality. Requires `n ≡ 0 (mod 4)`, `n ≥ 8`.
    pub fn half_spin_minus(n: usize) -> (res: Result<Self, GroupError>)
        ensures
            (n < 8 || n % 4 != 0) ==> res == Err::<Self, GroupError>(
                GroupError::UnsupportedRank { family: "half_spin", value: n },
            ),
            !(n < 8 || n % 4 != 0) ==> res == Ok::<Self, GroupError>(
                GroupId {
                    root_system: RootSystem::D((n / 2) as usize),
                    form: GlobalForm::Quotient(CenterSubgroup::DHalfSpinMinus),
                },
            ),
    {
        let root_system = half_spin_root_system(n)?;
        Ok(GroupId { root_system, form: GlobalForm::Quotient(CenterSubgroup::DHalfSpinMinus) })
    }

    /// Whether `dynkin` is a genuine representation of this group.
    ///
    /// Returns `false` for a label of the wrong length, a label with a
    /// negative component, and for a [`CenterSubgroup`] that is not a subgroup
    /// of this root system's center.
    pub fn admits(&self, dynkin: &[i64]) -> (b: bool)
        ensures
            b == admits_spec(*self, dynkin@),
    {
        let r = self.root_system.rank();
        if dynkin.len() != r {
            return false;
        }
        let mut i: usize = 0;
        while i < r
            invariant
                i <= r == dynkin.len(),
                forall|j: int| 0 <= j < i ==> dynkin@[j] >= 0,
            decreases r - i,
        {
            if dynkin[i] < 0 {
                return false;
            }
            i = i + 1;
        }
        let sub = match self.form {
            GlobalForm::SimplyConnected => {
                return true;
            },
            GlobalForm::Quotient(sub) => sub,
        };
        match self.root_system {
            RootSystem::A(_) => match sub {
                CenterSubgroup::Zk(k) => {
                    if k == 0 || (r as u128 + 1) % (k as u128) != 0 {
                        return false;
                    }
                    nality_mod(dynkin, k) == 0
                },
                _ => false,
            },
            RootSystem::B(_) => match sub {
                CenterSubgroup::Z2 => r >= 1 && dynkin[r - 1] % 2 == 0,
                _ => false,
            },
            RootSystem::C(_) => match sub {
                CenterSubgroup::Z2 => odd_index_sum_mod(dynkin, r, 2) == 0,
                _ => false,
            },
            RootSystem::D(_) => {
                if r >= 2 && (sub == CenterSubgroup::Z2 || sub == CenterSubgroup::DVector) {
                    let x = mod_euclid(dynkin[r - 2], 2);
                    let y = mod_euclid(dynkin[r - 1], 2);
                    proof {
                        vstd::arithmetic::div_mod::lemma_add_mod_noop(
                            dynkin@[r - 2] as int,
                            dynkin@[r - 1] as int,
                            2,
                        );
                    }
                    (x + y) % 2 == 0
                } else if r >= 3 && r % 2 == 1 && sub == CenterSubgroup::Z4 {
                    d_odd_class(dynkin) == 0
                } else if r >= 2 && r % 2 == 0 {
                    let t = odd_index_sum_mod(dynkin, r - 2, 2);
                    let x = mod_euclid(dynkin[r - 2], 2);
                    let y = mod_euclid(dynkin[r - 1], 2);
                    let ghost s = odd_sum(dynkin@, (r - 2) as nat);
                    proof {
                        vstd::arithmetic::div_mod::lemma_add_mod_noop(
                            dynkin@[r - 2] as int,
                            s,
                            2,
                        );
                        vstd::arithmetic::div_mod::lemma_add_mod_noop(
                            dynkin@[r - 1] as int,
                            s,
                            2,
                        );
                    }
                    let p = (x + t) % 2;
                    let q = (y + t) % 2;
                    match sub {
                        CenterSubgroup::DHalfSpinPlus => p == 0,
                        CenterSubgroup::DHalfSpinMinus => q == 0,
                        CenterSubgroup::DFull => p == 0 && q == 0,
                        _ => false,
                    }
                } else {
                    false
                }
            },
            _ => false,
        }
    }
}

// ---- laws -----------------------------------------------------------------

/// Pointwise sum of two Dynkin labels of equal length.
pub open spec fn add_labels(a: Seq<i64>, b: Seq<i64>) -> Seq<i64> {
    Seq::new(a.len(), |i: int| (a[i] + b[i]) as i64)
}

/// Whether the pointwise sum of `a` and `b` fits the label type.
pub open spec fn sum_fits(a: Seq<i64>, b: Seq<i64>) -> bool {
    a.len() == b.len() && forall|i: int| 0 <= i < a.len() ==> a[i] + b[i] <= i64::MAX
}

proof fn lemma_odd_sum_add(a: Seq<i64>, b: Seq<i64>, n: nat)
    requires
        sum_fits(a, b),
        all_nonneg(a),
        all_nonneg(b),
        n <= a.len(),
    ensures
        odd_sum(add_labels(a, b), n) == odd_sum(a, n) + odd_sum(b, n),
    decreases n,
{
    if n > 0 {
        lemma_odd_sum_add(a, b, (n - 1) as nat);
    }
}

proof fn lemma_nality_add(a: Seq<i64>, b: Seq<i64>, n: nat)
    requires
        sum_fits(a, b),
        all_nonneg(a),
        all_nonneg(b),
        n <= a.len(),
    ensures
        nality(add_labels(a, b), n) == nality(a, n) + nality(b, n),
    decreases n,
{
    if n > 0 {
        lemma_nality_add(a, b, (n - 1) as nat);
        let x = a[n - 1] as int;
        let y = b[n - 1] as int;
        assert((n as int) * (x + y) == (n as int) * x + (n as int) * y) by (nonlinear_arith);
    }
}

proof fn lemma_mod_sum_zero(x: int, y: int, m: int)
    requires
        m > 0,
        x % m == 0,
        y % m == 0,
    ensures
        (x + y) % m == 0,
{
    vstd::arithmetic::div_mod::lemma_add_mod_noop(x, y, m);
    vstd::arithmetic::div_mod::lemma_small_mod(0, m as nat);
}

/// The central class is additive: if two labels are representations of a
/// group, so is their pointwise sum. Since every highest weight in a tensor
/// product `λ ⊗ μ` differs from `λ + μ` by roots, this is why admissibility is
/// closed under fusion and never needs re-checking on fusion outputs.
pub proof fn lemma_admits_closed_under_sum(g: GroupId, a: Seq<i64>, b: Seq<i64>)
    requires
        admits_spec(g, a),
        admits_spec(g, b),
        sum_fits(a, b),
    ensures
        admits_spec(g, add_labels(a, b)),
{
    let c = add_labels(a, b);
    let r = a.len();
    assert(c.len() == r);
    assert forall|i: int| 0 <= i < c.len() implies c[i] >= 0 by {
        assert(a[i] >= 0 && b[i] >= 0);
    }
    match g.form {
        GlobalForm::SimplyConnected => {},
        GlobalForm::Quotient(sub) => {
            lemma_odd_sum_add(a, b, r);
            lemma_nality_add(a, b, r);
            if r >= 2 {
                lemma_odd_sum_add(a, b, (r - 2) as nat);
            }
            match g.root_system {
                RootSystem::A(_) => {
                    if let CenterSubgroup::Zk(k) = sub {
                        lemma_mod_sum_zero(nality(a, r), nality(b, r), k as int);
                    }
                },
                RootSystem::B(_) => {
                    lemma_mod_sum_zero(a[r - 1] as int, b[r - 1] as int, 2);
                },
                RootSystem::C(_) => {
                    lemma_mod_sum_zero(odd_sum(a, r), odd_sum(b, r), 2);
                },
                RootSystem::D(_) => {
                    if r >= 2 && (sub == CenterSubgroup::Z2 || sub == CenterSubgroup::DVector) {
                        lemma_mod_sum_zero(
                            a[r - 2] + a[r - 1],
                            b[r - 2] + b[r - 1],
                            2,
                        );
                        assert(c[r - 2] + c[r - 1] == (a[r - 2] + a[r - 1]) + (b[r - 2]
                            + b[r - 1]));
                    } else if r >= 3 && r % 2 == 1 && sub == CenterSubgroup::Z4 {
                        let ka = a[r - 1] - a[r - 2] + 2 * odd_sum(a, (r - 2) as nat);
                        let kb = b[r - 1] - b[r - 2] + 2 * odd_sum(b, (r - 2) as nat);
                        lemma_mod_sum_zero(ka, kb, 4);
                        assert(c[r - 1] - c[r - 2] + 2 * odd_sum(c, (r - 2) as nat) == ka + kb);
                    } else if r >= 2 && r % 2 == 0 {
                        let ta = odd_sum(a, (r - 2) as nat);
                        let tb = odd_sum(b, (r - 2) as nat);
                        let tc = odd_sum(c, (r - 2) as nat);
                        if (a[r - 2] + ta) % 2 == 0 && (b[r - 2] + tb) % 2 == 0 {
                            lemma_mod_sum_zero(a[r - 2] + ta, b[r - 2] + tb, 2);
                            assert(c[r - 2] + tc == (a[r - 2] + ta) + (b[r - 2] + tb));
                        }
                        if (a[r - 1] + ta) % 2 == 0 && (b[r - 1] + tb) % 2 == 0 {
                            lemma_mod_sum_zero(a[r - 1] + ta, b[r - 1] + tb, 2);
                            assert(c[r - 1] + tc == (a[r - 1] + ta) + (b[r - 1] + tb));
                        }
                    }
                },
                _ => {},
            }
        },
    }
}

/// `Σ_j j·d_j` and the odd-position sum `d_1 + d_3 + …` (1-based) have the
/// same parity.
proof fn lemma_nality_odd_sum_parity(d: Seq<i64>, n: nat)
    requires
        n <= d.len(),
    ensures
        (nality(d, n) - odd_sum(d, n)) % 2 == 0,
    decreases n,
{
    if n > 0 {
        lemma_nality_odd_sum_parity(d, (n - 1) as nat);
        let x = d[n - 1] as int;
        let k = (n - 1) as int;
        let prev = nality(d, (n - 1) as nat) - odd_sum(d, (n - 1) as nat);
        let y = nality(d, n) - odd_sum(d, n);
        let m = if k % 2 == 0 {
            (k / 2) * x
        } else {
            ((k + 1) / 2) * x
        };
        if k % 2 == 0 {
            let h = k / 2;
            assert(k == 2 * h);
            assert((k + 1) * x - x == 2 * (h * x)) by (nonlinear_arith)
                requires
                    k == 2 * h,
            ;
        } else {
            let h = (k + 1) / 2;
            assert(k + 1 == 2 * h);
            assert((k + 1) * x == 2 * (h * x)) by (nonlinear_arith)
                requires
                    k + 1 == 2 * h,
            ;
        }
        assert(nality(d, n) == nality(d, (n - 1) as nat) + (k + 1) * x);
        assert(odd_sum(d, n) == odd_sum(d, (n - 1) as nat) + if k % 2 == 0 {
            x
        } else {
            0
        });
        assert(y - prev == 2 * m);
        vstd::arithmetic::div_mod::lemma_mod_multiples_vanish(m, prev, 2);
    }
}

/// `2` in the first slot, `0` elsewhere: the label of the adjoint of `Sp(2r)`.
pub open spec fn sp_adjoint_label(r: nat) -> Seq<i64> {
    Seq::new(r, |i: int| if i == 0 { 2i64 } else { 0i64 })
}

proof fn lemma_odd_sum_adjoint(r: nat, n: nat)
    requires
        1 <= n <= r,
    ensures
        odd_sum(sp_adjoint_label(r), n) == 2,
    decreases n,
{
    let e = sp_adjoint_label(r);
    if n > 1 {
        lemma_odd_sum_adjoint(r, (n - 1) as nat);
        assert(e[n - 1] == 0);
    } else {
        assert(odd_sum(e, 0) == 0);
        assert(e[0] == 2);
    }
}

/// On `Sp(2r)` the centre `{±I}` acts on the irrep with Dynkin label `d` by
/// `(-1)^{Σ_j j·d_j}` (1-based `j`), so `PSp(2r) = Sp(2r)/Z2` admits `d`
/// exactly when that sum is even. In particular it admits the adjoint
/// `(2, 0, …, 0)` and every doubled label `d + d`.
pub proof fn lemma_psp_admits_by_centre(r: usize, d: Seq<i64>)
    requires
        d.len() == r,
        all_nonneg(d),
    ensures
        admits_spec(
            GroupId { root_system: RootSystem::C(r), form: GlobalForm::Quotient(CenterSubgroup::Z2) },
            d,
        ) <==> nality(d, r as nat) % 2 == 0,
        r >= 1 ==> admits_spec(
            GroupId { root_system: RootSystem::C(r), form: GlobalForm::Quotient(CenterSubgroup::Z2) },
            sp_adjoint_label(r as nat),
        ),
        sum_fits(d, d) ==> admits_spec(
            GroupId { root_system: RootSystem::C(r), form: GlobalForm::Quotient(CenterSubgroup::Z2) },
            add_labels(d, d),
        ),
{
    lemma_nality_odd_sum_parity(d, r as nat);
    let x = nality(d, r as nat);
    let y = odd_sum(d, r as nat);
    assert(x % 2 == 0 <==> y % 2 == 0) by {
        let q = (x - y) / 2;
        assert(x - y == 2 * q);
        vstd::arithmetic::div_mod::lemma_mod_multiples_vanish(q, y, 2);
    }
    if r >= 1 {
        lemma_odd_sum_adjoint(r as nat, r as nat);
        let e = sp_adjoint_label(r as nat);
        assert(all_nonneg(e));
    }
    if sum_fits(d, d) {
        let c = add_labels(d, d);
        lemma_odd_sum_add(d, d, r as nat);
        assert(all_nonneg(c)) by {
            assert forall|i: int| 0 <= i < c.len() implies c[i] >= 0 by {
                assert(d[i] >= 0);
            }
        }
        assert(odd_sum(c, r as nat) == 2 * y);
        vstd::arithmetic::div_mod::lemma_mod_multiples_vanish(y, 0, 2);
    }
}

// ---- the adjoint representation ---------------------------------------------

/// The Dynkin label of the adjoint representation (the highest root) of a
/// classical root system: `(1,0,…,0,1)` for `A_r` (`(2)` for `A_1`),
/// `(0,1,0,…,0)` for `B_r` (`(0,2)` for `B_2`), `(2,0,…,0)` for `C_r`, and
/// `(0,1,0,…,0)` for `D_r` (`(0,1,1)` for `D_3`).
pub open spec fn adjoint_label(rs: RootSystem) -> Seq<i64> {
    match rs {
        RootSystem::A(r) => if r == 1 {
            seq![2i64]
        } else {
            Seq::new(r as nat, |i: int| if i == 0 || i == r - 1 { 1i64 } else { 0i64 })
        },
        RootSystem::B(r) => if r == 2 {
            seq![0i64, 2]
        } else {
            Seq::new(r as nat, |i: int| if i == 1 { 1i64 } else { 0i64 })
        },
        RootSystem::C(r) => sp_adjoint_label(r as nat),
        RootSystem::D(r) => if r == 3 {
            seq![0i64, 1, 1]
        } else {
            Seq::new(r as nat, |i: int| if i == 1 { 1i64 } else { 0i64 })
        },
        _ => Seq::empty(),
    }
}

/// A classical root system of a rank with an irreducible adjoint.
pub open spec fn has_classical_adjoint(rs: RootSystem) -> bool {
    match rs {
        RootSystem::A(r) => r >= 1,
        RootSystem::B(r) => r >= 2,
        RootSystem::C(r) => r >= 1,
        RootSystem::D(r) => r >= 3,
        _ => false,
    }
}

/// The all-zero label: the trivial representation.
pub open spec fn trivial_label(r: nat) -> Seq<i64> {
    Seq::new(r, |i: int| 0i64)
}

proof fn lemma_odd_sum_zero(d: Seq<i64>, n: nat)
    requires
        n <= d.len(),
        forall|i: int| 0 <= i < n && i % 2 == 0 ==> d[i] == 0,
    ensures
        odd_sum(d, n) == 0,
    decreases n,
{
    if n > 0 {
        lemma_odd_sum_zero(d, (n - 1) as nat);
    }
}

proof fn lemma_nality_head(d: Seq<i64>, n: nat)
    requires
        1 <= n <= d.len(),
        forall|i: int| 1 <= i < n ==> d[i] == 0,
    ensures
        nality(d, n) == d[0],
    decreases n,
{
    if n > 1 {
        lemma_nality_head(d, (n - 1) as nat);
        assert(d[n - 1] == 0);
    } else {
        assert(nality(d, 0) == 0);
    }
}

/// The adjoint representation is a representation of every global form of
/// its group: the highest root lies in the root lattice, on which every
/// central character is trivial. So any form that admits anything at all
/// (the trivial label) admits the adjoint.
pub proof fn lemma_adjoint_admitted(g: GroupId)
    requires
        has_classical_adjoint(g.root_system),
        admits_spec(g, trivial_label(rank_of(g.root_system))),
    ensures
        admits_spec(g, adjoint_label(g.root_system)),
{
    let rs = g.root_system;
    let d = adjoint_label(rs);
    let r = rank_of(rs);
    assert(d.len() == r);
    assert(all_nonneg(d));
    match g.form {
        GlobalForm::SimplyConnected => {},
        GlobalForm::Quotient(sub) => {
            match rs {
                RootSystem::A(rr) => {
                    if rr == 1 {
                        assert(nality(d, 1) == 2) by {
                            assert(nality(d, 0) == 0);
                        }
                    } else {
                        lemma_nality_head(d, (r - 1) as nat);
                        assert(nality(d, r) == nality(d, (r - 1) as nat) + (r as int) * 1);
                    }
                },
                RootSystem::B(_) => {},
                RootSystem::C(_) => {
                    lemma_odd_sum_adjoint(r, r);
                },
                RootSystem::D(rr) => {
                    if rr == 3 {
                        assert(odd_sum(d, 1) == 0) by {
                            assert(odd_sum(d, 0) == 0);
                        }
                    } else {
                        lemma_odd_sum_zero(d, (r - 2) as nat);
                    }
                },
                _ => {},
            }
        },
    }
}

} // verus!

