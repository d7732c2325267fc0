//! Bounded coefficient caches: retained-charge budgets per tier, and the FIFO
//! store each tier is built on.
//!
//! # Resource contract (static partition)
//!
//! Every tier is bounded independently by an entry cap and a retained-charge
//! cap. The aggregate caps [`BASE_CACHE_MAX_BYTES`] (the three base SU(2)
//! tiers: 3j, 6j, derived F) and [`GENERATED_CACHE_MAX_BYTES`] (the five
//! generated tiers) are simply the sums of their tiers' caps; this is a static
//! partition, not a shared pool, so the aggregate bound holds as a corollary of
//! the per-tier bounds.
//!
//! The charge of an entry is its value's charge plus twice its key's charge
//! (the key is held once by the lookup structure and once by the insertion
//! order). It covers entries currently owned by the cache only.
//!
//! # Eviction policy
//!
//! FIFO, not LRU: the oldest admitted entry leaves first. A hit never reorders
//! entries, and eviction never changes a returned value, only whether it is
//! recomputed on the next miss.

use vstd::prelude::*;
use crate::bcd::{Irrep, Series};
use crate::su2::{Regge3j, Regge6j};

verus! {

/// Default entry cap per base tier (`1 << 20`).
pub const DEFAULT_MAX_ENTRIES: usize = 1048576;

/// Default retained-charge cap per base tier (`64 << 20`, 64 MiB).
pub const DEFAULT_MAX_BYTES: usize = 67108864;

/// Retained-charge cap of the SU(N) product tier (`128 << 10`, 128 KiB).
pub const SUN_PRODUCT_MAX_BYTES: usize = 131072;

/// Retained-charge cap of the SU(N) CGC tier (`256 << 20`, 256 MiB).
pub const SUN_CGC_MAX_BYTES: usize = 268435456;

/// Retained-charge cap of the SU(N) F-symbol tier (`64 << 20`, 64 MiB).
pub const SUN_F_MAX_BYTES: usize = 67108864;

/// Retained-charge cap of the B/C/D CGC tier (`256 << 20`, 256 MiB).
pub const BCD_CGC_MAX_BYTES: usize = 268435456;

/// Retained-charge cap of the B/C/D F-symbol tier (`64 << 20`, 64 MiB).
pub const BCD_F_MAX_BYTES: usize = 67108864;

/// Aggregate retained-charge cap of the three base SU(2) tiers (3j, 6j,
/// derived F): `192 MiB = 3 × 64 MiB`.
pub const BASE_CACHE_MAX_BYTES: usize = 201326592;

/// Aggregate retained-charge cap of the five generated tiers (SU(N) product,
/// SU(N) CGC, SU(N) F, B/C/D CGC, B/C/D F): `640 MiB + 128 KiB`.
pub const GENERATED_CACHE_MAX_BYTES: usize = 671219712;

/// The aggregate caps are the sums of their tiers' caps.
pub proof fn lemma_aggregate_caps()
    ensures
        BASE_CACHE_MAX_BYTES == 3 * DEFAULT_MAX_BYTES,
        GENERATED_CACHE_MAX_BYTES == SUN_PRODUCT_MAX_BYTES + SUN_CGC_MAX_BYTES + SUN_F_MAX_BYTES
            + BCD_CGC_MAX_BYTES + BCD_F_MAX_BYTES,
{
}

/// One coefficient-cache tier.
#[derive(Clone, Copy, Debug, PartialEq, Eq, Structural)]
pub enum CoefficientCacheTier {
    /// Exact Wigner 3j tier.
    ThreeJ,
    /// Exact Wigner 6j tier.
    SixJ,
    /// Derived SU(2) F-symbol tier.
    DerivedF,
    /// SU(N) product tier.
    SunProduct,
    /// SU(N) CGC tier.
    SunCgc,
    /// SU(N) F-symbol tier.
    SunF,
    /// B/C/D CGC tier.
    BcdCgc,
    /// B/C/D F-symbol tier.
    BcdF,
}

/// The tiers in their fixed order.
pub open spec fn tier_at(i: int) -> CoefficientCacheTier {
    if i == 0 {
        CoefficientCacheTier::ThreeJ
    } else if i == 1 {
        CoefficientCacheTier::SixJ
    } else if i == 2 {
        CoefficientCacheTier::DerivedF
    } else if i == 3 {
        CoefficientCacheTier::SunProduct
    } else if i == 4 {
        CoefficientCacheTier::SunCgc
    } else if i == 5 {
        CoefficientCacheTier::SunF
    } else if i == 6 {
        CoefficientCacheTier::BcdCgc
    } else {
        CoefficientCacheTier::BcdF
    }
}

/// The position of a tier in the fixed order.
pub open spec fn tier_index(t: CoefficientCacheTier) -> int {
    match t {
        CoefficientCacheTier::ThreeJ => 0,
        CoefficientCacheTier::SixJ => 1,
        CoefficientCacheTier::DerivedF => 2,
        CoefficientCacheTier::SunProduct => 3,
        CoefficientCacheTier::SunCgc => 4,
        CoefficientCacheTier::SunF => 5,
        CoefficientCacheTier::BcdCgc => 6,
        CoefficientCacheTier::BcdF => 7,
    }
}

/// The compiled (default and maximum) retained-charge cap of a tier.
pub open spec fn default_limit(t: CoefficientCacheTier) -> usize {
    match t {
        CoefficientCacheTier::ThreeJ => DEFAULT_MAX_BYTES,
        CoefficientCacheTier::SixJ => DEFAULT_MAX_BYTES,
        CoefficientCacheTier::DerivedF => DEFAULT_MAX_BYTES,
        CoefficientCacheTier::SunProduct => SUN_PRODUCT_MAX_BYTES,
        CoefficientCacheTier::SunCgc => SUN_CGC_MAX_BYTES,
        CoefficientCacheTier::SunF => SUN_F_MAX_BYTES,
        CoefficientCacheTier::BcdCgc => BCD_CGC_MAX_BYTES,
        CoefficientCacheTier::BcdF => BCD_F_MAX_BYTES,
    }
}

impl CoefficientCacheTier {
    /// The stable diagnostic name of the tier (`"three_j"`, `"six_j"`, ...).
    pub fn name(self) -> (s: &'static str)
        ensures
            self == CoefficientCacheTier::ThreeJ ==> s@ == "three_j"@,
            self == CoefficientCacheTier::SixJ ==> s@ == "six_j"@,
            self == CoefficientCacheTier::DerivedF ==> s@ == "derived_f"@,
            self == CoefficientCacheTier::SunProduct ==> s@ == "sun_product"@,
            self == CoefficientCacheTier::SunCgc ==> s@ == "sun_cgc"@,
            self == CoefficientCacheTier::SunF ==> s@ == "sun_f"@,
            self == CoefficientCacheTier::BcdCgc ==> s@ == "bcd_cgc"@,
            self == CoefficientCacheTier::BcdF ==> s@ == "bcd_f"@,
    {
        match self {
            CoefficientCacheTier::ThreeJ => "three_j",
            CoefficientCacheTier::SixJ => "six_j",
            CoefficientCacheTier::DerivedF => "derived_f",
            CoefficientCacheTier::SunProduct => "sun_product",
            CoefficientCacheTier::SunCgc => "sun_cgc",
            CoefficientCacheTier::SunF => "sun_f",
            CoefficientCacheTier::BcdCgc => "bcd_cgc",
            CoefficientCacheTier::BcdF => "bcd_f",
        }
    }
}

/// The tier at position `i` of the fixed order.
fn tier_at_index(i: usize) -> (t: CoefficientCacheTier)
    requires
        i < 8,
    ensures
        t == tier_at(i as int),
{
    if i == 0 {
        CoefficientCacheTier::ThreeJ
    } else if i == 1 {
        CoefficientCacheTier::SixJ
    } else if i == 2 {
        CoefficientCacheTier::DerivedF
    } else if i == 3 {
        CoefficientCacheTier::SunProduct
    } else if i == 4 {
        CoefficientCacheTier::SunCgc
    } else if i == 5 {
        CoefficientCacheTier::SunF
    } else if i == 6 {
        CoefficientCacheTier::BcdCgc
    } else {
        CoefficientCacheTier::BcdF
    }
}

/// Retained-charge limits for the coefficient-cache tiers.
///
/// [`Default`] is the compiled policy and also the maximum accepted policy
/// ([`validate_budgets`]); budgets can only shrink it. A zero limit keeps
/// computing values but retains none for that tier.
#[derive(Clone, Copy, Debug, PartialEq, Eq, Structural)]
pub struct CoefficientCacheBudgets {
    three_j_bytes: usize,
    six_j_bytes: usize,
    derived_f_bytes: usize,
    sun_product_bytes: usize,
    sun_cgc_bytes: usize,
    sun_f_bytes: usize,
    bcd_cgc_bytes: usize,
    bcd_f_bytes: usize,
}

impl CoefficientCacheBudgets {
    /// The retained-charge cap of one tier.
    pub closed spec fn limit_spec(self, tier: CoefficientCacheTier) -> usize {
        match tier {
            CoefficientCacheTier::ThreeJ => self.three_j_bytes,
            CoefficientCacheTier::SixJ => self.six_j_bytes,
            CoefficientCacheTier::DerivedF => self.derived_f_bytes,
            CoefficientCacheTier::SunProduct => self.sun_product_bytes,
            CoefficientCacheTier::SunCgc => self.sun_cgc_bytes,
            CoefficientCacheTier::SunF => self.sun_f_bytes,
            CoefficientCacheTier::BcdCgc => self.bcd_cgc_bytes,
            CoefficientCacheTier::BcdF => self.bcd_f_bytes,
        }
    }

    /// A policy is its eight tier limits: two policies with the same limit in
    /// every tier are equal. So `b.with_limit(t, b.limit(t)) == b`, and two
    /// `with_limit` calls on different tiers commute.
    pub proof fn lemma_limits_determine(a: Self, b: Self)
        requires
            forall|t: CoefficientCacheTier| a.limit_spec(t) == b.limit_spec(t),
        ensures
            a == b,
    {
        assert(a.limit_spec(CoefficientCacheTier::ThreeJ) == b.limit_spec(CoefficientCacheTier::ThreeJ));
        assert(a.limit_spec(CoefficientCacheTier::SixJ) == b.limit_spec(CoefficientCacheTier::SixJ));
        assert(a.limit_spec(CoefficientCacheTier::DerivedF) == b.limit_spec(CoefficientCacheTier::DerivedF));
        assert(a.limit_spec(CoefficientCacheTier::SunProduct) == b.limit_spec(
            CoefficientCacheTier::SunProduct,
        ));
        assert(a.limit_spec(CoefficientCacheTier::SunCgc) == b.limit_spec(CoefficientCacheTier::SunCgc));
        assert(a.limit_spec(CoefficientCacheTier::SunF) == b.limit_spec(CoefficientCacheTier::SunF));
        assert(a.limit_spec(CoefficientCacheTier::BcdCgc) == b.limit_spec(CoefficientCacheTier::BcdCgc));
        assert(a.limit_spec(CoefficientCacheTier::BcdF) == b.limit_spec(CoefficientCacheTier::BcdF));
    }

    /// Setting a tier to its own limit changes nothing.
    pub proof fn lemma_with_own_limit(b: Self, r: Self, tier: CoefficientCacheTier)
        requires
            forall|t: CoefficientCacheTier|
                r.limit_spec(t) == if t == tier {
                    b.limit_spec(tier)
                } else {
                    b.limit_spec(t)
                },
        ensures
            r == b,
    {
        Self::lemma_limits_determine(r, b);
    }

    /// Disable retention in every tier while preserving evaluation.
    pub fn disabled() -> (b: Self)
        ensures
            forall|t: CoefficientCacheTier| b.limit_spec(t) == 0,
    {
        let mut budgets = Self::default();
        let mut i: usize = 0;
        while i < 8
            invariant
                i <= 8,
                forall|t: CoefficientCacheTier| tier_index(t) < i ==> budgets.limit_spec(t) == 0,
            decreases 8 - i,
        {
            budgets = budgets.with_limit(tier_at_index(i), 0);
            i = i + 1;
        }
        budgets
    }

    /// This policy with one tier's retained-charge cap replaced.
    pub fn with_limit(self, tier: CoefficientCacheTier, bytes: usize) -> (b: Self)
        ensures
            forall|t: CoefficientCacheTier|
                b.limit_spec(t) == if t == tier {
                    bytes
                } else {
                    self.limit_spec(t)
                },
    {
        let mut b = self;
        match tier {
            CoefficientCacheTier::ThreeJ => b.three_j_bytes = bytes,
            CoefficientCacheTier::SixJ => b.six_j_bytes = bytes,
            CoefficientCacheTier::DerivedF => b.derived_f_bytes = bytes,
            CoefficientCacheTier::SunProduct => b.sun_product_bytes = bytes,
            CoefficientCacheTier::SunCgc => b.sun_cgc_bytes = bytes,
            CoefficientCacheTier::SunF => b.sun_f_bytes = bytes,
            CoefficientCacheTier::BcdCgc => b.bcd_cgc_bytes = bytes,
            CoefficientCacheTier::BcdF => b.bcd_f_bytes = bytes,
        }
        b
    }

    /// One tier's retained-charge cap.
    pub fn limit(&self, tier: CoefficientCacheTier) -> (n: usize)
        ensures
            n == self.limit_spec(tier),
    {
        match tier {
            CoefficientCacheTier::ThreeJ => self.three_j_bytes,
            CoefficientCacheTier::SixJ => self.six_j_bytes,
            CoefficientCacheTier::DerivedF => self.derived_f_bytes,
            CoefficientCacheTier::SunProduct => self.sun_product_bytes,
            CoefficientCacheTier::SunCgc => self.sun_cgc_bytes,
            CoefficientCacheTier::SunF => self.sun_f_bytes,
            CoefficientCacheTier::BcdCgc => self.bcd_cgc_bytes,
            CoefficientCacheTier::BcdF => self.bcd_f_bytes,
        }
    }
}

impl Default for CoefficientCacheBudgets {
    /// The compiled policy: every tier at its compiled cap.
    fn default() -> (b: Self)
        ensures
            forall|t: CoefficientCacheTier| b.limit_spec(t) == default_limit(t),
    {
        CoefficientCacheBudgets {
            three_j_bytes: DEFAULT_MAX_BYTES,
            six_j_bytes: DEFAULT_MAX_BYTES,
            derived_f_bytes: DEFAULT_MAX_BYTES,
            sun_product_bytes: SUN_PRODUCT_MAX_BYTES,
            sun_cgc_bytes: SUN_CGC_MAX_BYTES,
            sun_f_bytes: SUN_F_MAX_BYTES,
            bcd_cgc_bytes: BCD_CGC_MAX_BYTES,
            bcd_f_bytes: BCD_F_MAX_BYTES,
        }
    }
}

/// Failed coefficient-cache policy initialization.
#[derive(Clone, Copy, Debug, PartialEq, Eq, Structural)]
pub enum CacheBudgetError {
    /// A cache operation or policy observation already fixed this process's
    /// policy.
    AlreadyInitialized,
    /// A requested tier limit exceeds its compiled maximum.
    ExceedsMaximum {
        /// The tier.
        tier: CoefficientCacheTier,
        /// Rejected requested cap.
        requested: usize,
        /// Compiled maximum cap.
        maximum: usize,
    },
    /// Summing validated tier limits overflowed `usize`.
    AggregateOverflow,
}

/// The first tier, at position `i` or later in the fixed order, whose
/// requested cap exceeds its compiled maximum.
pub open spec fn first_exceeding(b: CoefficientCacheBudgets, i: int) -> Option<CoefficientCacheTier>
    decreases 8 - i,
{
    if i >= 8 {
        None
    } else if b.limit_spec(tier_at(i)) > default_limit(tier_at(i)) {
        Some(tier_at(i))
    } else {
        first_exceeding(b, i + 1)
    }
}

/// Check a requested policy against the compiled maxima, tier by tier in the
/// fixed order.
///
/// Returns the first tier whose request exceeds its maximum. Within the
/// maxima the aggregate cannot overflow, so `AggregateOverflow` never comes.
pub fn validate_budgets(b: CoefficientCacheBudgets) -> (res: Result<(), CacheBudgetError>)
    ensures
        match res {
            Ok(()) => first_exceeding(b, 0) is None,
            Err(CacheBudgetError::ExceedsMaximum { tier, requested, maximum }) => {
                &&& first_exceeding(b, 0) == Some(tier)
                &&& requested == b.limit_spec(tier)
                &&& maximum == default_limit(tier)
            },
            Err(_) => false,
        },
{
    let maximum = CoefficientCacheBudgets::default();
    let mut total: usize = 0;
    let mut i: usize = 0;
    while i < 8
        invariant
            i <= 8,
            forall|t: CoefficientCacheTier| maximum.limit_spec(t) == default_limit(t),
            first_exceeding(b, 0) == first_exceeding(b, i as int),
            total <= i * SUN_CGC_MAX_BYTES,
        decreases 8 - i,
    {
        let tier = tier_at_index(i);
        let requested = b.limit(tier);
        let limit = maximum.limit(tier);
        if requested > limit {
            return Err(CacheBudgetError::ExceedsMaximum { tier, requested, maximum: limit });
        }
        assert(requested <= SUN_CGC_MAX_BYTES);
        match total.checked_add(requested) {
            Some(t) => total = t,
            None => return Err(CacheBudgetError::AggregateOverflow),
        }
        i = i + 1;
    }
    Ok(())
}

/// Snapshot of the aggregate cache counters.
#[derive(Clone, Copy, Debug, Default, PartialEq, Eq, Structural)]
pub struct CacheStats {
    /// Lookups served from a stored value.
    pub hits: u64,
    /// Lookups that had to compute the value.
    pub misses: u64,
    /// Entries currently retained.
    pub entries: usize,
    /// Charged bytes currently retained.
    pub bytes: usize,
}

/// Snapshot of one coefficient-cache tier.
#[derive(Clone, Copy, Debug, Default, PartialEq, Eq, Structural)]
pub struct TierStats {
    /// Entries currently retained in this tier.
    pub entries: usize,
    /// Charged bytes currently retained in this tier.
    pub bytes: usize,
    /// Lookups served from a stored value in this tier.
    pub hits: u64,
    /// Lookups that had to compute the value in this tier.
    pub misses: u64,
    /// Entries removed from this tier by eviction over its lifetime, including
    /// an entry larger than the retained-charge cap that is turned away.
    pub evictions: u64,
}

/// Per-tier statistics for the three base SU(2) coefficient tiers.
#[derive(Clone, Copy, Debug, Default, PartialEq, Eq, Structural)]
pub struct BaseCacheStats {
    /// The exact 3j tier.
    pub three_j: TierStats,
    /// The exact 6j tier.
    pub six_j: TierStats,
    /// The derived F-symbol tier.
    pub derived_f: TierStats,
}

/// Per-tier statistics for the five generated tiers.
#[derive(Clone, Copy, Debug, Default, PartialEq, Eq, Structural)]
pub struct GeneratedCacheStats {
    /// The exact SU(N) tensor-product tier.
    pub sun_product: TierStats,
    /// The SU(N) CGC tier.
    pub sun_cgc: TierStats,
    /// The derived SU(N) F-symbol tier.
    pub sun_f: TierStats,
    /// The B/C/D CGC tier.
    pub bcd_cgc: TierStats,
    /// The derived B/C/D F-symbol tier.
    pub bcd_f: TierStats,
}

/// Whether the field-wise sum of `stats` fits each field's type.
pub open spec fn stats_sum_fits(stats: Seq<TierStats>) -> bool {
    &&& stats_sum(stats, |s: TierStats| s.entries as int) <= usize::MAX
    &&& stats_sum(stats, |s: TierStats| s.bytes as int) <= usize::MAX
    &&& stats_sum(stats, |s: TierStats| s.hits as int) <= u64::MAX
    &&& stats_sum(stats, |s: TierStats| s.misses as int) <= u64::MAX
    &&& stats_sum(stats, |s: TierStats| s.evictions as int) <= u64::MAX
}

/// The sum of one field over a sequence of tier snapshots.
pub open spec fn stats_sum(stats: Seq<TierStats>, field: spec_fn(TierStats) -> int) -> int
    decreases stats.len(),
{
    if stats.len() == 0 {
        0
    } else {
        field(stats.last()) + stats_sum(stats.drop_last(), field)
    }
}

/// Whether `t` is the field-wise sum of `stats`.
pub open spec fn is_field_sum(t: TierStats, stats: Seq<TierStats>) -> bool {
    &&& t.entries == stats_sum(stats, |s: TierStats| s.entries as int)
    &&& t.bytes == stats_sum(stats, |s: TierStats| s.bytes as int)
    &&& t.hits == stats_sum(stats, |s: TierStats| s.hits as int)
    &&& t.misses == stats_sum(stats, |s: TierStats| s.misses as int)
    &&& t.evictions == stats_sum(stats, |s: TierStats| s.evictions as int)
}

impl BaseCacheStats {
    /// The three tiers in order.
    pub open spec fn tiers(self) -> Seq<TierStats> {
        seq![self.three_j, self.six_j, self.derived_f]
    }

    /// Field-wise sum of the three base tiers.
    pub fn total(&self) -> (t: TierStats)
        requires
            stats_sum_fits(self.tiers()),
        ensures
            is_field_sum(t, self.tiers()),
    {
        proof {
            reveal_with_fuel(stats_sum, 4);
        }
        TierStats {
            entries: self.three_j.entries + self.six_j.entries + self.derived_f.entries,
            bytes: self.three_j.bytes + self.six_j.bytes + self.derived_f.bytes,
            hits: self.three_j.hits + self.six_j.hits + self.derived_f.hits,
            misses: self.three_j.misses + self.six_j.misses + self.derived_f.misses,
            evictions: self.three_j.evictions + self.six_j.evictions + self.derived_f.evictions,
        }
    }
}

impl GeneratedCacheStats {
    /// The five tiers in order.
    pub open spec fn tiers(self) -> Seq<TierStats> {
        seq![self.sun_product, self.sun_cgc, self.sun_f, self.bcd_cgc, self.bcd_f]
    }

    /// Field-wise sum of the five generated tiers.
    pub fn total(&self) -> (t: TierStats)
        requires
            stats_sum_fits(self.tiers()),
        ensures
            is_field_sum(t, self.tiers()),
    {
        proof {
            reveal_with_fuel(stats_sum, 6);
        }
        TierStats {
            entries: self.sun_product.entries + self.sun_cgc.entries + self.sun_f.entries
                + self.bcd_cgc.entries + self.bcd_f.entries,
            bytes: self.sun_product.bytes + self.sun_cgc.bytes + self.sun_f.bytes
                + self.bcd_cgc.bytes + self.bcd_f.bytes,
            hits: self.sun_product.hits + self.sun_cgc.hits + self.sun_f.hits + self.bcd_cgc.hits
                + self.bcd_f.hits,
            misses: self.sun_product.misses + self.sun_cgc.misses + self.sun_f.misses
                + self.bcd_cgc.misses + self.bcd_f.misses,
            evictions: self.sun_product.evictions + self.sun_cgc.evictions + self.sun_f.evictions
                + self.bcd_cgc.evictions + self.bcd_f.evictions,
        }
    }
}


// ---- keys and charges ------------------------------------------------------------

/// `x`, saturated at `usize::MAX`.
pub open spec fn saturate(x: nat) -> nat {
    if x > usize::MAX {
        usize::MAX as nat
    } else {
        x
    }
}

/// A cache key: a value that names one cache entry, with a conservative
/// retained-byte charge for one stored copy of it.
pub trait CacheKey: Sized {
    /// What identifies the key: two keys name the same entry iff their views
    /// are equal.
    type KeyView;

    /// The identity of the key.
    spec fn key_view(&self) -> Self::KeyView;

    /// Bytes charged for one stored copy of the key (its inline shell plus
    /// any owned backing).
    spec fn key_charge(&self) -> nat;

    /// Whether two keys name the same entry.
    fn same_key(&self, other: &Self) -> (b: bool)
        ensures
            b == (self.key_view() == other.key_view()),
    ;

    /// The retained-byte charge of one stored copy of the key.
    fn key_bytes(&self) -> (n: usize)
        ensures
            n == self.key_charge(),
    ;
}

impl CacheKey for u32 {
    type KeyView = u32;

    open spec fn key_view(&self) -> u32 {
        *self
    }

    open spec fn key_charge(&self) -> nat {
        vstd::layout::size_of::<u32>()
    }

    fn same_key(&self, other: &Self) -> (b: bool) {
        *self == *other
    }

    fn key_bytes(&self) -> (n: usize) {
        core::mem::size_of::<u32>()
    }
}

impl CacheKey for Regge6j {
    type KeyView = Seq<u16>;

    open spec fn key_view(&self) -> Seq<u16> {
        self@
    }

    open spec fn key_charge(&self) -> nat {
        vstd::layout::size_of::<Regge6j>()
    }

    fn same_key(&self, other: &Self) -> (b: bool) {
        let a = self.components();
        let c = other.components();
        let mut i: usize = 0;
        while i < 6
            invariant
                i <= 6,
                a@ == self@,
                c@ == other@,
                a@.len() == 6,
                c@.len() == 6,
                forall|j: int| 0 <= j < i ==> a@[j] == c@[j],
            decreases 6 - i,
        {
            if a[i] != c[i] {
                return false;
            }
            i = i + 1;
        }
        assert(a@ =~= c@);
        true
    }

    fn key_bytes(&self) -> (n: usize) {
        core::mem::size_of::<Regge6j>()
    }
}

impl CacheKey for Regge3j {
    type KeyView = (Seq<u16>, Seq<i32>);

    open spec fn key_view(&self) -> (Seq<u16>, Seq<i32>) {
        self@
    }

    open spec fn key_charge(&self) -> nat {
        vstd::layout::size_of::<Regge3j>()
    }

    fn same_key(&self, other: &Self) -> (b: bool) {
        let a = self.doubled_spins();
        let c = other.doubled_spins();
        let p = self.doubled_projections();
        let q = other.doubled_projections();
        let mut i: usize = 0;
        while i < 3
            invariant
                i <= 3,
                a@ == self@.0,
                c@ == other@.0,
                p@ == self@.1,
                q@ == other@.1,
                a@.len() == 3,
                c@.len() == 3,
                p@.len() == 3,
                q@.len() == 3,
                forall|j: int| 0 <= j < i ==> a@[j] == c@[j] && p@[j] == q@[j],
            decreases 3 - i,
        {
            if a[i] != c[i] || p[i] != q[i] {
                return false;
            }
            i = i + 1;
        }
        assert(a@ =~= c@);
        assert(p@ =~= q@);
        true
    }

    fn key_bytes(&self) -> (n: usize) {
        core::mem::size_of::<Regge3j>()
    }
}

impl CacheKey for Irrep {
    type KeyView = (Series, Seq<i64>);

    open spec fn key_view(&self) -> (Series, Seq<i64>) {
        (self.series_spec(), self.weight_spec())
    }

    /// The irrep's inline shell plus its owned weight entries.
    open spec fn key_charge(&self) -> nat {
        saturate(
            vstd::layout::size_of::<Irrep>() + saturate(
                self.weight_spec().len() * vstd::layout::size_of::<i64>(),
            ),
        ) as nat
    }

    fn same_key(&self, other: &Self) -> (b: bool) {
        if self.series() != other.series() {
            return false;
        }
        let a = self.partition();
        let c = other.partition();
        if a.len() != c.len() {
            return false;
        }
        let mut i: usize = 0;
        while i < a.len()
            invariant
                i <= a@.len(),
                a@.len() == c@.len(),
                a@ == self.weight_spec(),
                c@ == other.weight_spec(),
                forall|j: int| 0 <= j < i ==> a@[j] == c@[j],
            decreases a@.len() - i,
        {
            if a[i] != c[i] {
                assert(a@[i as int] != c@[i as int]);
                return false;
            }
            i = i + 1;
        }
        assert(a@ =~= c@);
        true
    }

    fn key_bytes(&self) -> (n: usize) {
        let r = self.rank();
        let w = core::mem::size_of::<i64>();
        let owned = match r.checked_mul(w) {
            Some(x) => x,
            None => usize::MAX,
        };
        core::mem::size_of::<Irrep>().saturating_add(owned)
    }
}

impl<I: CacheKey> CacheKey for (I, I, I) {
    type KeyView = (I::KeyView, I::KeyView, I::KeyView);

    open spec fn key_view(&self) -> Self::KeyView {
        (self.0.key_view(), self.1.key_view(), self.2.key_view())
    }

    open spec fn key_charge(&self) -> nat {
        saturate(saturate(self.0.key_charge() + self.1.key_charge()) + self.2.key_charge()) as nat
    }

    fn same_key(&self, other: &Self) -> (b: bool) {
        self.0.same_key(&other.0) && self.1.same_key(&other.1) && self.2.same_key(&other.2)
    }

    fn key_bytes(&self) -> (n: usize) {
        self.0.key_bytes().saturating_add(self.1.key_bytes()).saturating_add(self.2.key_bytes())
    }
}

impl<I: CacheKey> CacheKey for (I, I, I, I, I, I) {
    type KeyView = (I::KeyView, I::KeyView, I::KeyView, I::KeyView, I::KeyView, I::KeyView);

    open spec fn key_view(&self) -> Self::KeyView {
        (
            self.0.key_view(),
            self.1.key_view(),
            self.2.key_view(),
            self.3.key_view(),
            self.4.key_view(),
            self.5.key_view(),
        )
    }

    open spec fn key_charge(&self) -> nat {
        saturate(
            saturate(
                saturate(
                    saturate(saturate(self.0.key_charge() + self.1.key_charge()) + self.2.key_charge())
                        + self.3.key_charge(),
                ) + self.4.key_charge(),
            ) + self.5.key_charge(),
        ) as nat
    }

    fn same_key(&self, other: &Self) -> (b: bool) {
        self.0.same_key(&other.0) && self.1.same_key(&other.1) && self.2.same_key(&other.2)
            && self.3.same_key(&other.3) && self.4.same_key(&other.4) && self.5.same_key(
            &other.5,
        )
    }

    fn key_bytes(&self) -> (n: usize) {
        self.0.key_bytes().saturating_add(self.1.key_bytes()).saturating_add(
            self.2.key_bytes(),
        ).saturating_add(self.3.key_bytes()).saturating_add(self.4.key_bytes()).saturating_add(
            self.5.key_bytes(),
        )
    }
}

/// The charge of one entry: its value's charge plus twice its key's charge
/// (the key is stored once for lookup and once in the insertion order),
/// saturating.
pub open spec fn entry_charge_spec(key_charge: nat, value_bytes: nat) -> nat {
    saturate(value_bytes + saturate(2 * key_charge)) as nat
}

/// Conservative retained-byte charge for one stored entry, given the charge of
/// its value.
pub fn entry_charge<K: CacheKey>(key: &K, value_bytes: usize) -> (c: usize)
    ensures
        c == entry_charge_spec(key.key_charge(), value_bytes as nat),
{
    let k = key.key_bytes();
    let twice = match k.checked_mul(2) {
        Some(x) => x,
        None => usize::MAX,
    };
    value_bytes.saturating_add(twice)
}


// ---- the FIFO store ----------------------------------------------------------------

/// `x` reduced modulo `2^64`: the value of a wrapping `u64` counter that has
/// been advanced `x` times from zero.
pub open spec fn wrap_u64(x: int) -> u64 {
    (x % 0x1_0000_0000_0000_0000) as u64
}

proof fn lemma_wrap_step(a: int)
    requires
        a >= 0,
    ensures
        wrap_u64(a).wrapping_add(1) == wrap_u64(a + 1),
{
    vstd::arithmetic::div_mod::lemma_add_mod_noop(a, 1, 0x1_0000_0000_0000_0000);
}

/// The total charge of a run of entries.
pub open spec fn charge_sum<K, V>(s: Seq<(K, V, usize)>) -> nat
    decreases s.len(),
{
    if s.len() == 0 {
        0
    } else {
        s[0].2 as nat + charge_sum(s.drop_first())
    }
}

proof fn lemma_charge_sum_push<K, V>(s: Seq<(K, V, usize)>, e: (K, V, usize))
    ensures
        charge_sum(s.push(e)) == charge_sum(s) + e.2,
    decreases s.len(),
{
    if s.len() > 0 {
        assert(s.push(e).drop_first() =~= s.drop_first().push(e));
        assert(s.push(e)[0] == s[0]);
        lemma_charge_sum_push(s.drop_first(), e);
    } else {
        assert(s.push(e).drop_first() =~= Seq::<(K, V, usize)>::empty());
        assert(s.push(e)[0] == e);
        assert(charge_sum(Seq::<(K, V, usize)>::empty()) == 0);
    }
}

/// Whether a run of entries holds an entry for the key `k`.
pub open spec fn holds_key<K: CacheKey, V>(s: Seq<(K, V, usize)>, k: K::KeyView) -> bool {
    exists|i: int| 0 <= i < s.len() && #[trigger] s[i].0.key_view() == k
}

/// Whether no two entries of a run share a key.
pub open spec fn distinct_keys<K: CacheKey, V>(s: Seq<(K, V, usize)>) -> bool {
    forall|i: int, j: int|
        0 <= i < j < s.len() ==> #[trigger] s[i].0.key_view() != #[trigger] s[j].0.key_view()
}

/// How many of the oldest entries FIFO eviction removes so that fewer than
/// `max_entries` entries, charging at most `limit` in all, remain.
pub open spec fn evict_count<K, V>(s: Seq<(K, V, usize)>, max_entries: nat, limit: int) -> nat
    decreases s.len(),
{
    if s.len() > 0 && (s.len() >= max_entries || charge_sum(s) > limit) {
        1 + evict_count(s.drop_first(), max_entries, limit)
    } else {
        0
    }
}

proof fn lemma_evict_count_bounds<K, V>(s: Seq<(K, V, usize)>, max_entries: nat, limit: int)
    requires
        max_entries > 0,
        limit >= 0,
    ensures
        evict_count(s, max_entries, limit) <= s.len(),
        s.len() - evict_count(s, max_entries, limit) < max_entries,
        charge_sum(s.skip(evict_count(s, max_entries, limit) as int)) <= limit,
    decreases s.len(),
{
    if s.len() > 0 && (s.len() >= max_entries || charge_sum(s) > limit) {
        lemma_evict_count_bounds(s.drop_first(), max_entries, limit);
        let k = evict_count(s.drop_first(), max_entries, limit);
        assert(s.skip(k + 1 as int) =~= s.drop_first().skip(k as int));
    } else {
        assert(s.skip(0) =~= s);
    }
}

/// What an insertion did with its entry.
#[derive(Clone, Copy, Debug, PartialEq, Eq, Structural)]
pub enum CacheAdmission {
    /// The key already had an entry; nothing changed.
    Present,
    /// The entry was retained, after evicting as many of the oldest entries
    /// as its charge required.
    Retained,
    /// The entry could never fit (zero entry cap, or a charge above the
    /// retained-charge cap); it was turned away, counted as one eviction, and
    /// no older entry was discarded.
    Rejected,
}

/// A bounded map from keys to values, evicting first-in first-out.
///
/// It retains fewer than `max_entries` entries before an insertion (so at most
/// `max_entries` after it) and at most `max_bytes` of charge; it counts hits,
/// misses and evictions in wrapping `u64` counters.
pub struct FifoCache<K, V> {
    /// Retained entries, oldest first: key, value, charge.
    entries: Vec<(K, V, usize)>,
    bytes: usize,
    hits: u64,
    misses: u64,
    evictions: u64,
    max_entries: usize,
    max_bytes: usize,
}

impl<K: CacheKey, V> FifoCache<K, V> {
    /// The retained entries, oldest first, with their charges.
    pub closed spec fn entries_spec(&self) -> Seq<(K, V, usize)> {
        self.entries@
    }

    /// The charge currently retained.
    pub closed spec fn bytes_spec(&self) -> usize {
        self.bytes
    }

    /// The hit counter.
    pub closed spec fn hits_spec(&self) -> u64 {
        self.hits
    }

    /// The miss counter.
    pub closed spec fn misses_spec(&self) -> u64 {
        self.misses
    }

    /// The eviction counter.
    pub closed spec fn evictions_spec(&self) -> u64 {
        self.evictions
    }

    /// The entry cap.
    pub closed spec fn max_entries_spec(&self) -> usize {
        self.max_entries
    }

    /// The retained-charge cap.
    pub closed spec fn max_bytes_spec(&self) -> usize {
        self.max_bytes
    }

    /// The store is consistent: the retained charge is the sum of the entries'
    /// charges and within the cap, the entries are within the entry cap, and
    /// no key occurs twice.
    pub open spec fn wf(&self) -> bool {
        &&& self.bytes_spec() == charge_sum(self.entries_spec())
        &&& self.bytes_spec() <= self.max_bytes_spec()
        &&& self.entries_spec().len() <= self.max_entries_spec()
        &&& distinct_keys(self.entries_spec())
    }

    /// An empty store with the given caps.
    pub fn new(max_entries: usize, max_bytes: usize) -> (c: Self)
        ensures
            c.wf(),
            c.entries_spec().len() == 0,
            c.bytes_spec() == 0,
            c.hits_spec() == 0,
            c.misses_spec() == 0,
            c.evictions_spec() == 0,
            c.max_entries_spec() == max_entries,
            c.max_bytes_spec() == max_bytes,
    {
        FifoCache {
            entries: Vec::new(),
            bytes: 0,
            hits: 0,
            misses: 0,
            evictions: 0,
            max_entries,
            max_bytes,
        }
    }

    /// The position of the entry for `key`, if there is one.
    fn find(&self, key: &K) -> (pos: Option<usize>)
        ensures
            match pos {
                Some(i) => i < self.entries@.len() && self.entries@[i as int].0.key_view()
                    == key.key_view(),
                None => !holds_key(self.entries@, key.key_view()),
            },
    {
        let mut i: usize = 0;
        while i < self.entries.len()
            invariant
                i <= self.entries@.len(),
                forall|j: int| 0 <= j < i ==> self.entries@[j].0.key_view() != key.key_view(),
            decreases self.entries@.len() - i,
        {
            if self.entries[i].0.same_key(key) {
                return Some(i);
            }
            i = i + 1;
        }
        None
    }

    /// The stored value for `key`, without counting a lookup.
    pub fn peek(&self, key: &K) -> (v: Option<&V>)
        ensures
            match v {
                Some(x) => exists|i: int|
                    0 <= i < self.entries_spec().len() && self.entries_spec()[i].0.key_view()
                        == key.key_view() && self.entries_spec()[i].1 == *x,
                None => !holds_key(self.entries_spec(), key.key_view()),
            },
    {
        match self.find(key) {
            Some(i) => {
                assert(0 <= i < self.entries_spec().len() && self.entries_spec()[i as int].0.key_view()
                    == key.key_view() && self.entries_spec()[i as int].1 == self.entries@[i as int].1);
                Some(&self.entries[i].1)
            },
            None => None,
        }
    }

    /// Whether `key` has an entry; a hit is counted, a miss is not (the caller
    /// decides whether to compute and [`Self::insert`]).
    pub fn get(&mut self, key: &K) -> (hit: bool)
        ensures
            hit == holds_key(old(self).entries_spec(), key.key_view()),
            final(self).entries_spec() == old(self).entries_spec(),
            final(self).bytes_spec() == old(self).bytes_spec(),
            final(self).hits_spec() == if hit {
                old(self).hits_spec().wrapping_add(1)
            } else {
                old(self).hits_spec()
            },
            final(self).misses_spec() == old(self).misses_spec(),
            final(self).evictions_spec() == old(self).evictions_spec(),
            final(self).max_entries_spec() == old(self).max_entries_spec(),
            final(self).max_bytes_spec() == old(self).max_bytes_spec(),
    {
        match self.find(key) {
            Some(_) => {
                self.hits = self.hits.wrapping_add(1);
                true
            },
            None => false,
        }
    }

    /// Make room for an entry of charge `charge`: evict the oldest entries
    /// until fewer than `max_entries` remain and the rest charges at most
    /// `max_bytes - charge`.
    ///
    /// An entry that can never fit (zero entry cap, or a charge above the
    /// retained-charge cap) is turned away: it counts as one eviction, and no
    /// older entry is discarded.
    fn make_room(&mut self, charge: usize) -> (admitted: bool)
        requires
            old(self).wf(),
        ensures
            final(self).wf(),
            admitted == (old(self).max_entries > 0 && charge <= old(self).max_bytes),
            !admitted ==> final(self).entries@ == old(self).entries@,
            !admitted ==> final(self).evictions == old(self).evictions.wrapping_add(1),
            admitted ==> {
                let k = evict_count(
                    old(self).entries@,
                    old(self).max_entries as nat,
                    old(self).max_bytes - charge,
                );
                &&& k <= old(self).entries@.len()
                &&& final(self).entries@ == old(self).entries@.skip(k as int)
                &&& final(self).evictions == wrap_u64(old(self).evictions + k)
                &&& final(self).entries@.len() < final(self).max_entries
                &&& final(self).bytes + charge <= final(self).max_bytes
            },
            final(self).hits == old(self).hits,
            final(self).misses == old(self).misses,
            final(self).max_entries == old(self).max_entries,
            final(self).max_bytes == old(self).max_bytes,
    {
        if self.max_entries == 0 || charge > self.max_bytes {
            self.evictions = self.evictions.wrapping_add(1);
            return false;
        }
        let bytes_before = self.max_bytes - charge;
        let ghost start = self.entries@;
        let ghost start_ev = self.evictions;
        let ghost limit: int = bytes_before as int;
        proof {
            lemma_evict_count_bounds(start, self.max_entries as nat, limit);
            assert(start.skip(0) =~= start);
            assert(wrap_u64(start_ev + 0) == start_ev) by {
                vstd::arithmetic::div_mod::lemma_small_mod(start_ev as nat, 0x1_0000_0000_0000_0000);
            }
        }
        let mut count: usize = 0;
        let n0 = self.entries.len();
        while (self.entries.len() >= self.max_entries || self.bytes > bytes_before)
            && self.entries.len() > 0
            invariant
                n0 == start.len(),
                self.max_entries > 0,
                self.max_entries == old(self).max_entries,
                self.max_bytes == old(self).max_bytes,
                self.hits == old(self).hits,
                self.misses == old(self).misses,
                start == old(self).entries@,
                start_ev == old(self).evictions,
                count + self.entries@.len() == start.len(),
                bytes_before == self.max_bytes - charge,
                limit == bytes_before as int,
                count <= start.len(),
                self.entries@ == start.skip(count as int),
                evict_count(start, self.max_entries as nat, limit) == count + evict_count(
                    self.entries@,
                    self.max_entries as nat,
                    limit,
                ),
                self.bytes == charge_sum(self.entries@),
                distinct_keys(self.entries@),
                self.evictions == wrap_u64(start_ev + count),
            decreases self.entries@.len(),
        {
            let ghost before = self.entries@;
            let (_, _, c) = self.entries.remove(0);
            assert(self.entries@ =~= before.drop_first());
            assert forall|i: int, j: int| 0 <= i < j < self.entries@.len() implies
                #[trigger] self.entries@[i].0.key_view() != #[trigger] self.entries@[j].0.key_view() by {
                assert(self.entries@[i] == before[i + 1]);
                assert(self.entries@[j] == before[j + 1]);
            }
            assert(start.skip(count + 1) =~= before.drop_first());
            self.bytes = self.bytes - c;
            proof {
                lemma_wrap_step(start_ev + count);
            }
            self.evictions = self.evictions.wrapping_add(1);
            count = count + 1;
        }
        proof {
            assert(evict_count(self.entries@, self.max_entries as nat, limit) == 0);
            if self.entries@.len() == 0 {
                assert(charge_sum(self.entries@) == 0);
            }
        }
        true
    }

    /// Insert `value` for `key`, whose value charges `value_bytes`, counting a
    /// miss.
    ///
    /// If the key already has an entry, nothing changes. Otherwise the entry
    /// is admitted by [`Self::make_room`] and appended as the newest entry.
    pub fn insert(&mut self, key: K, value: V, value_bytes: usize) -> (a: CacheAdmission)
        requires
            old(self).wf(),
        ensures
            final(self).wf(),
            final(self).misses_spec() == old(self).misses_spec().wrapping_add(1),
            final(self).hits_spec() == old(self).hits_spec(),
            final(self).max_entries_spec() == old(self).max_entries_spec(),
            final(self).max_bytes_spec() == old(self).max_bytes_spec(),
            ({
                let charge = entry_charge_spec(key.key_charge(), value_bytes as nat);
                let fits = old(self).max_entries_spec() > 0 && charge <= old(self).max_bytes_spec();
                let present = holds_key(old(self).entries_spec(), key.key_view());
                let k = evict_count(
                    old(self).entries_spec(),
                    old(self).max_entries_spec() as nat,
                    old(self).max_bytes_spec() - charge,
                );
                match a {
                    CacheAdmission::Present => {
                        &&& present
                        &&& final(self).entries_spec() == old(self).entries_spec()
                        &&& final(self).evictions_spec() == old(self).evictions_spec()
                    },
                    CacheAdmission::Rejected => {
                        &&& !present
                        &&& !fits
                        &&& final(self).entries_spec() == old(self).entries_spec()
                        &&& final(self).evictions_spec() == old(self).evictions_spec().wrapping_add(
                            1,
                        )
                    },
                    CacheAdmission::Retained => {
                        &&& !present
                        &&& fits
                        &&& final(self).entries_spec() == old(self).entries_spec().skip(
                            k as int,
                        ).push((key, value, charge as usize))
                        &&& final(self).evictions_spec() == wrap_u64(
                            old(self).evictions_spec() + k,
                        )
                    },
                }
            }),
    {
        self.misses = self.misses.wrapping_add(1);
        if self.find(&key).is_some() {
            return CacheAdmission::Present;
        }
        let charge = entry_charge(&key, value_bytes);
        if !self.make_room(charge) {
            return CacheAdmission::Rejected;
        }
        let ghost kept = self.entries@;
        let e = (key, value, charge);
        proof {
            lemma_charge_sum_push(kept, e);
            let old_entries = old(self).entries@;
            let k = evict_count(old_entries, self.max_entries as nat, self.max_bytes - charge);
            assert forall|i: int| 0 <= i < kept.len() implies kept[i].0.key_view()
                != e.0.key_view() by {
                assert(kept[i] == old_entries[i + k]);
            }
        }
        self.bytes = self.bytes + charge;
        self.entries.push(e);
        CacheAdmission::Retained
    }

    /// Clear every entry and every counter.
    pub fn reset(&mut self)
        ensures
            final(self).wf(),
            final(self).entries_spec().len() == 0,
            final(self).bytes_spec() == 0,
            final(self).hits_spec() == 0,
            final(self).misses_spec() == 0,
            final(self).evictions_spec() == 0,
            final(self).max_entries_spec() == old(self).max_entries_spec(),
            final(self).max_bytes_spec() == old(self).max_bytes_spec(),
    {
        self.entries = Vec::new();
        self.bytes = 0;
        self.hits = 0;
        self.misses = 0;
        self.evictions = 0;
    }

    /// A snapshot of the store's counters and occupancy.
    pub fn tier_stats(&self) -> (t: TierStats)
        ensures
            t.entries == self.entries_spec().len(),
            t.bytes == self.bytes_spec(),
            t.hits == self.hits_spec(),
            t.misses == self.misses_spec(),
            t.evictions == self.evictions_spec(),
    {
        TierStats {
            entries: self.entries.len(),
            bytes: self.bytes,
            hits: self.hits,
            misses: self.misses,
            evictions: self.evictions,
        }
    }

    /// `(hits, misses, entries, bytes)`.
    pub fn snapshot(&self) -> (s: (u64, u64, usize, usize))
        ensures
            s == (self.hits_spec(), self.misses_spec(), self.entries_spec().len() as usize, self.bytes_spec()),
    {
        (self.hits, self.misses, self.entries.len(), self.bytes)
    }
    /// The value for `key`, computing and storing it on a miss.
    ///
    /// A hit returns a clone of the stored value and counts a hit. A miss runs
    /// `compute`, which yields the value and its charge, counts a miss, and
    /// offers a clone of the value to [`Self::insert`]; the computed value is
    /// returned whether or not it was retained.
    pub fn get_or_compute<F: FnOnce() -> (V, usize)>(&mut self, key: K, compute: F) -> (v: V) where
        V: Clone,
        requires
            old(self).wf(),
            call_requires(compute, ()),
        ensures
            final(self).wf(),
            final(self).max_entries_spec() == old(self).max_entries_spec(),
            final(self).max_bytes_spec() == old(self).max_bytes_spec(),
            holds_key(old(self).entries_spec(), key.key_view()) ==> {
                &&& final(self).entries_spec() == old(self).entries_spec()
                &&& final(self).hits_spec() == old(self).hits_spec().wrapping_add(1)
                &&& final(self).misses_spec() == old(self).misses_spec()
                &&& final(self).evictions_spec() == old(self).evictions_spec()
                &&& exists|i: int|
                    0 <= i < old(self).entries_spec().len()
                        && old(self).entries_spec()[i].0.key_view() == key.key_view()
                        && cloned(#[trigger] old(self).entries_spec()[i].1, v)
            },
            !holds_key(old(self).entries_spec(), key.key_view()) ==> {
                &&& final(self).hits_spec() == old(self).hits_spec()
                &&& final(self).misses_spec() == old(self).misses_spec().wrapping_add(1)
                &&& exists|b: usize, s: V|
                    #![trigger call_ensures(compute, (), (v, b)), cloned(v, s)]
                    {
                        let charge = entry_charge_spec(key.key_charge(), b as nat);
                        let k = evict_count(
                            old(self).entries_spec(),
                            old(self).max_entries_spec() as nat,
                            old(self).max_bytes_spec() - charge,
                        );
                        &&& call_ensures(compute, (), (v, b))
                        &&& cloned(v, s)
                        &&& if old(self).max_entries_spec() > 0 && charge
                            <= old(self).max_bytes_spec() {
                            &&& final(self).entries_spec() == old(self).entries_spec().skip(
                                k as int,
                            ).push((key, s, charge as usize))
                            &&& final(self).evictions_spec() == wrap_u64(
                                old(self).evictions_spec() + k,
                            )
                        } else {
                            &&& final(self).entries_spec() == old(self).entries_spec()
                            &&& final(self).evictions_spec()
                                == old(self).evictions_spec().wrapping_add(1)
                        }
                    }
            },
    {
        match self.find(&key) {
            Some(i) => {
                self.hits = self.hits.wrapping_add(1);
                let v = self.entries[i].1.clone();
                return v;
            },
            None => {},
        }
        let (value, bytes) = compute();
        let stored = value.clone();
        let ghost stored_g = stored;
        let a = self.insert(key, stored, bytes);
        proof {
            assert(call_ensures(compute, (), (value, bytes)));
            assert(cloned(value, stored_g));
            assert(a != CacheAdmission::Present);
        }
        value
    }
}

} // verus!
