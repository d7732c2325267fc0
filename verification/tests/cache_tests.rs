use racah::bcd::{Irrep as BcdIrrep, Series};
use racah::cache::{
    entry_charge, validate_budgets, BaseCacheStats, CacheAdmission, CacheBudgetError, CacheKey,
    CoefficientCacheBudgets, CoefficientCacheTier, FifoCache, GeneratedCacheStats, TierStats,
    BASE_CACHE_MAX_BYTES, DEFAULT_MAX_BYTES, GENERATED_CACHE_MAX_BYTES,
};

/// A stand-in exact value with a fixed charge.
fn val(n: u64) -> u64 {
    n
}

const VAL_BYTES: usize = 48;

#[test]
fn hit_returns_stored_and_counts() {
    let mut c: FifoCache<u32, u64> = FifoCache::new(16, 1 << 20);
    let mut computed = 0;
    let a = c.get_or_compute(7, || {
        computed += 1;
        (val(7), VAL_BYTES)
    });
    let b = c.get_or_compute(7, || {
        computed += 1;
        (val(999), VAL_BYTES) // must not run
    });
    assert_eq!(a, b);
    assert_eq!(computed, 1, "second lookup must be a hit");
    let (hits, misses, entries, _) = c.snapshot();
    assert_eq!((hits, misses, entries), (1, 1, 1));
}

#[test]
fn entry_bound_evicts_oldest() {
    let mut c: FifoCache<u32, u64> = FifoCache::new(3, 1 << 30);
    for k in 0..5u32 {
        c.get_or_compute(k, || (val(k as u64 + 1), VAL_BYTES));
    }
    let (_, _, entries, _) = c.snapshot();
    assert!(entries <= 3, "entry bound violated: {entries}");
    assert!(c.peek(&4).is_some());
    assert!(c.peek(&0).is_none());
}

#[test]
fn byte_bound_evicts() {
    let per = entry_charge(&0u32, VAL_BYTES);
    let mut c: FifoCache<u32, u64> = FifoCache::new(1_000_000, per * 2 + per / 2);
    for k in 0..20u32 {
        c.get_or_compute(k, || (val(k as u64 + 1), VAL_BYTES));
    }
    let (_, _, _, bytes) = c.snapshot();
    assert!(
        bytes <= per * 2 + per / 2,
        "retained charge cap violated: {bytes}"
    );
}

#[test]
fn eviction_thrash_never_changes_values() {
    let mut c: FifoCache<u32, u64> = FifoCache::new(1, 1 << 30);
    for round in 0..3 {
        for k in 0..200u32 {
            let got = c.get_or_compute(k, || (val(k as u64 * 3 + 1), VAL_BYTES));
            assert_eq!(got, val(k as u64 * 3 + 1), "round {round} key {k}");
        }
    }
}

#[test]
fn f64_tier_charge_is_fixed() {
    // A fixed-size value charges its size; the key is charged twice.
    let f64_bytes = std::mem::size_of::<f64>();
    assert_eq!(
        entry_charge(&7u32, f64_bytes),
        std::mem::size_of::<f64>() + 2 * std::mem::size_of::<u32>(),
        "fixed-size key accounting must remain unchanged"
    );
    let mut c: FifoCache<u32, f64> = FifoCache::new(16, 1 << 20);
    let a = c.get_or_compute(9, || (1.0f64, f64_bytes));
    assert_eq!(a, 1.0);
    assert_eq!(c.tier_stats().bytes, f64_bytes + 2 * std::mem::size_of::<u32>());
}

#[test]
fn generated_keys_charge_owned_irrep_weights() {
    let bcd = BcdIrrep::from_dynkin(Series::C, &[1; 12]).unwrap();
    let bcd_key = (
        bcd.clone(),
        bcd.clone(),
        bcd.clone(),
        bcd.clone(),
        bcd.clone(),
        bcd,
    );
    let bcd_irrep_bytes = std::mem::size_of::<BcdIrrep>() + 12 * std::mem::size_of::<i64>();
    assert_eq!(bcd_key.key_bytes(), 6 * bcd_irrep_bytes);
}

#[test]
fn deep_key_bytes_drive_eviction_oversize_and_reset() {
    let bcd = BcdIrrep::from_dynkin(Series::C, &[1; 12]).unwrap();
    let bcd_key = (
        bcd.clone(),
        bcd.clone(),
        bcd.clone(),
        bcd.clone(),
        bcd.clone(),
        bcd,
    );
    type BcdFKey = (BcdIrrep, BcdIrrep, BcdIrrep, BcdIrrep, BcdIrrep, BcdIrrep);
    let shallow_only = std::mem::size_of::<f64>() + 2 * std::mem::size_of::<BcdFKey>();
    assert!(entry_charge(&bcd_key, std::mem::size_of::<f64>()) > shallow_only);
    let mut oversize: FifoCache<BcdFKey, f64> = FifoCache::new(usize::MAX, shallow_only);
    oversize.insert(bcd_key, 1.0, std::mem::size_of::<f64>());
    assert_eq!(oversize.tier_stats().entries, 0);
    assert_eq!(oversize.tier_stats().bytes, 0);
    assert_eq!(oversize.tier_stats().evictions, 1);
}

#[test]
fn deep_keys_evict_the_oldest_entry() {
    let key = |label: i64| {
        let x = BcdIrrep::from_dynkin(Series::C, &[label; 12]).unwrap();
        (x.clone(), x.clone(), x)
    };
    let first = key(1);
    let second = key(2);
    let one_entry_budget = entry_charge(&first, std::mem::size_of::<f64>());
    let mut cache: FifoCache<(BcdIrrep, BcdIrrep, BcdIrrep), f64> =
        FifoCache::new(usize::MAX, one_entry_budget);
    cache.insert(first.clone(), 1.0, std::mem::size_of::<f64>());
    cache.insert(second, 2.0, std::mem::size_of::<f64>());
    assert_eq!(cache.tier_stats().entries, 1);
    assert_eq!(cache.tier_stats().evictions, 1);
    assert!(!cache.get(&first), "the oldest deep key is evicted");
    cache.reset();
    assert_eq!(cache.tier_stats(), TierStats::default());
}

#[test]
fn reset_clears_entries_and_counters() {
    let mut c: FifoCache<u32, u64> = FifoCache::new(16, 1 << 20);
    c.get_or_compute(1, || (val(1), VAL_BYTES));
    c.get_or_compute(1, || (val(1), VAL_BYTES));
    c.reset();
    let (hits, misses, entries, bytes) = c.snapshot();
    assert_eq!((hits, misses, entries, bytes), (0, 0, 0, 0));
}

#[test]
fn evictions_counted_on_entry_bound() {
    let mut c: FifoCache<u32, u64> = FifoCache::new(3, 1 << 30);
    for k in 0..5u32 {
        c.get_or_compute(k, || (val(k as u64 + 1), VAL_BYTES));
    }
    let ts = c.tier_stats();
    assert_eq!(ts.entries, 3);
    assert_eq!(ts.evictions, 2, "5 inserts over a cap of 3 evict exactly 2");
}

#[test]
fn evictions_counted_on_byte_bound() {
    let per = entry_charge(&0u32, VAL_BYTES);
    let mut c: FifoCache<u32, u64> = FifoCache::new(1_000_000, per * 2 + per / 2);
    for k in 0..20u32 {
        c.get_or_compute(k, || (val(k as u64 + 1), VAL_BYTES));
    }
    assert!(
        c.tier_stats().evictions > 0,
        "retained-charge pressure must count evictions"
    );
}

#[test]
fn oversize_entry_counts_as_eviction() {
    let mut c: FifoCache<u32, u64> = FifoCache::new(1_000_000, 1);
    c.get_or_compute(7, || (val(7), VAL_BYTES));
    let ts = c.tier_stats();
    assert_eq!(ts.entries, 0, "oversize entry is not retained");
    assert_eq!(ts.bytes, 0);
    assert_eq!(ts.evictions, 1, "an admitted-then-evicted entry counts");
}

#[test]
fn reset_zeroes_evictions() {
    let mut c: FifoCache<u32, u64> = FifoCache::new(1, 1 << 30);
    for k in 0..5u32 {
        c.get_or_compute(k, || (val(k as u64 + 1), VAL_BYTES));
    }
    assert!(c.tier_stats().evictions > 0, "precondition: some evictions");
    c.reset();
    assert_eq!(
        c.tier_stats(),
        TierStats::default(),
        "reset zeroes every field"
    );
}

#[test]
fn insert_reports_present_retained_rejected() {
    let mut c: FifoCache<u32, u64> = FifoCache::new(4, 1000);
    assert_eq!(c.insert(1, 10, VAL_BYTES), CacheAdmission::Retained);
    assert_eq!(c.insert(1, 11, VAL_BYTES), CacheAdmission::Present);
    assert_eq!(c.peek(&1), Some(&10));
    assert_eq!(c.insert(2, 20, 5000), CacheAdmission::Rejected);
    assert_eq!(c.tier_stats().misses, 3);
    let mut zero: FifoCache<u32, u64> = FifoCache::new(0, 1000);
    assert_eq!(zero.insert(1, 10, VAL_BYTES), CacheAdmission::Rejected);
}

#[test]
fn budgets_default_disabled_and_with_limit() {
    let d = CoefficientCacheBudgets::default();
    assert_eq!(d.limit(CoefficientCacheTier::ThreeJ), DEFAULT_MAX_BYTES);
    assert_eq!(d.limit(CoefficientCacheTier::SunProduct), 128 << 10);
    assert_eq!(d.limit(CoefficientCacheTier::SunCgc), 256 << 20);
    let off = CoefficientCacheBudgets::disabled();
    assert_eq!(off.limit(CoefficientCacheTier::BcdF), 0);
    assert_eq!(off.limit(CoefficientCacheTier::ThreeJ), 0);
    let one = d.with_limit(CoefficientCacheTier::SixJ, 7);
    assert_eq!(one.limit(CoefficientCacheTier::SixJ), 7);
    assert_eq!(one.limit(CoefficientCacheTier::ThreeJ), DEFAULT_MAX_BYTES);
}

#[test]
fn validate_budgets_accepts_shrink_and_rejects_growth() {
    assert_eq!(validate_budgets(CoefficientCacheBudgets::default()), Ok(()));
    assert_eq!(validate_budgets(CoefficientCacheBudgets::disabled()), Ok(()));
    let grown = CoefficientCacheBudgets::default()
        .with_limit(CoefficientCacheTier::DerivedF, DEFAULT_MAX_BYTES + 1)
        .with_limit(CoefficientCacheTier::BcdF, usize::MAX);
    assert_eq!(
        validate_budgets(grown),
        Err(CacheBudgetError::ExceedsMaximum {
            tier: CoefficientCacheTier::DerivedF,
            requested: DEFAULT_MAX_BYTES + 1,
            maximum: DEFAULT_MAX_BYTES,
        })
    );
}

#[test]
fn aggregate_caps_are_tier_sums() {
    assert_eq!(BASE_CACHE_MAX_BYTES, 192 << 20);
    assert_eq!(BASE_CACHE_MAX_BYTES, 3 * DEFAULT_MAX_BYTES);
    assert_eq!(GENERATED_CACHE_MAX_BYTES, (640 << 20) + (128 << 10));
}

#[test]
fn stats_totals_are_field_sums() {
    let t = |e: usize| TierStats {
        entries: e,
        bytes: 10 * e,
        hits: e as u64,
        misses: 2 * e as u64,
        evictions: 3 * e as u64,
    };
    let base = BaseCacheStats {
        three_j: t(1),
        six_j: t(2),
        derived_f: t(3),
    };
    assert_eq!(base.total(), t(6));
    let gen = GeneratedCacheStats {
        sun_product: t(1),
        sun_cgc: t(2),
        sun_f: t(3),
        bcd_cgc: t(4),
        bcd_f: t(5),
    };
    assert_eq!(gen.total(), t(15));
}

#[test]
fn tier_names_are_stable() {
    assert_eq!(CoefficientCacheTier::ThreeJ.name(), "three_j");
    assert_eq!(CoefficientCacheTier::BcdF.name(), "bcd_f");
}

#[test]
fn setting_a_tier_to_its_own_limit_changes_nothing() {
    let b = CoefficientCacheBudgets::default().with_limit(CoefficientCacheTier::SixJ, 7);
    for tier in [
        CoefficientCacheTier::ThreeJ,
        CoefficientCacheTier::SixJ,
        CoefficientCacheTier::DerivedF,
        CoefficientCacheTier::BcdF,
    ] {
        assert_eq!(b.with_limit(tier, b.limit(tier)), b);
    }
}
