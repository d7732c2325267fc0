//! Prime-factorized integer arithmetic for factorial-heavy exact sums.
//!
//! A nonnegative integer is stored as the exponent vector of its prime
//! factorization plus a sign; products and exact quotients are integer vector
//! additions and subtractions, so no big integer is multiplied until a single
//! final reconstruction. Factorials and their ratios stay in exponent space.

use vstd::prelude::*;
use crate::bignum::{
    big_add, big_from_u64, big_mul, big_neg, big_pow, bigint_value, frac_eq, ratio_denom, ratio_new,
    ratio_numer, ratio_wf, ratio_zero,
};
use num_bigint::BigInt;
use num_rational::Ratio;

verus! {

// ---- primes -----------------------------------------------------------------------

/// `d` divides `n`.
pub open spec fn divides(d: int, n: int) -> bool {
    n % d == 0
}

/// `n` is prime.
pub open spec fn is_prime(n: int) -> bool {
    n >= 2 && forall|d: int| 2 <= d < n ==> !#[trigger] divides(d, n)
}

/// The smallest divisor of `n` that is at least `d` (`n` itself if none is
/// smaller).
pub open spec fn least_divisor_from(n: int, d: int) -> int
    decreases n - d,
{
    if d >= n {
        n
    } else if divides(d, n) {
        d
    } else {
        least_divisor_from(n, d + 1)
    }
}

/// `n!`.
pub open spec fn factorial_spec(n: nat) -> nat
    decreases n,
{
    if n == 0 {
        1
    } else {
        n * factorial_spec((n - 1) as nat)
    }
}

/// The first prime after `n`.
pub open spec fn next_prime_after(n: int) -> int {
    choose|q: int| is_prime(q) && q > n && forall|m: int| n < m < q ==> !#[trigger] is_prime(m)
}

/// The `i`-th prime (`nth_prime_spec(0) == 2`).
pub open spec fn nth_prime_spec(i: nat) -> int
    decreases i,
{
    if i == 0 {
        2
    } else {
        next_prime_after(nth_prime_spec((i - 1) as nat))
    }
}

proof fn lemma_divides_trans(n: int, s: int, e: int)
    requires
        s > 0,
        e > 0,
        divides(s, n),
        divides(e, s),
    ensures
        divides(e, n),
{
    vstd::arithmetic::div_mod::lemma_fundamental_div_mod(n, s);
    vstd::arithmetic::div_mod::lemma_fundamental_div_mod(s, e);
    let a = n / s;
    let b = s / e;
    assert(n == (b * a) * e) by (nonlinear_arith)
        requires
            n == s * a,
            s == e * b,
    ;
    vstd::arithmetic::div_mod::lemma_mod_multiples_basic(b * a, e);
}

proof fn lemma_least_divisor(n: int, d: int)
    requires
        2 <= d <= n,
    ensures
        d <= least_divisor_from(n, d) <= n,
        divides(least_divisor_from(n, d), n),
        forall|e: int| d <= e < least_divisor_from(n, d) ==> !#[trigger] divides(e, n),
    decreases n - d,
{
    vstd::arithmetic::div_mod::lemma_mod_self_0(n);
    if d < n && !divides(d, n) {
        lemma_least_divisor(n, d + 1);
    }
}

/// The least divisor `s ≥ 2` of `n ≥ 2` is prime; if `n` is not prime,
/// `s² ≤ n`.
proof fn lemma_least_divisor_prime(n: int)
    requires
        n >= 2,
    ensures
        is_prime(least_divisor_from(n, 2)),
        divides(least_divisor_from(n, 2), n),
        !is_prime(n) ==> least_divisor_from(n, 2) * least_divisor_from(n, 2) <= n,
{
    let s = least_divisor_from(n, 2);
    lemma_least_divisor(n, 2);
    assert forall|e: int| 2 <= e < s implies !#[trigger] divides(e, s) by {
        if divides(e, s) {
            lemma_divides_trans(n, s, e);
        }
    }
    if !is_prime(n) {
        let d = choose|d: int| 2 <= d < n && #[trigger] divides(d, n);
        assert(s <= d);
        vstd::arithmetic::div_mod::lemma_fundamental_div_mod(n, s);
        let k = n / s;
        assert(n == s * k);
        assert(k >= 2) by (nonlinear_arith)
            requires
                n == s * k,
                s < n,
                s >= 2,
        ;
        assert(k <= n) by (nonlinear_arith)
            requires
                n == s * k,
                s >= 2,
                k >= 2,
        ;
        vstd::arithmetic::div_mod::lemma_mod_multiples_basic(s, k);
        assert(divides(k, n)) by {
            assert(s * k == k * s) by (nonlinear_arith);
        }
        assert(k >= s);
        assert(s * s <= n) by (nonlinear_arith)
            requires
                n == s * k,
                k >= s,
                s >= 2,
        ;
    }
}

proof fn lemma_factorial_divisible(n: nat, k: int)
    requires
        1 <= k <= n,
    ensures
        divides(k, factorial_spec(n) as int),
        factorial_spec(n) >= 1,
    decreases n,
{
    lemma_factorial_pos(n);
    let f = factorial_spec((n - 1) as nat);
    lemma_factorial_pos((n - 1) as nat);
    if k == n {
        vstd::arithmetic::div_mod::lemma_mod_multiples_basic(f as int, n as int);
        assert(factorial_spec(n) == f * n) by (nonlinear_arith)
            requires
                factorial_spec(n) == n * f,
        ;
    } else {
        lemma_factorial_divisible((n - 1) as nat, k);
        vstd::arithmetic::div_mod::lemma_fundamental_div_mod(f as int, k);
        let q = (f as int) / k;
        assert(factorial_spec(n) == (n * q) * k) by (nonlinear_arith)
            requires
                factorial_spec(n) == n * f,
                f == k * q,
        ;
        vstd::arithmetic::div_mod::lemma_mod_multiples_basic((n as int) * q, k);
    }
}

pub proof fn lemma_factorial_pos(n: nat)
    ensures
        factorial_spec(n) >= 1,
    decreases n,
{
    if n > 0 {
        lemma_factorial_pos((n - 1) as nat);
        assert(n * factorial_spec((n - 1) as nat) >= 1) by (nonlinear_arith)
            requires
                n >= 1,
                factorial_spec((n - 1) as nat) >= 1,
        ;
    }
}

/// There is a prime beyond every `n` (Euclid, through `n! + 1`).
proof fn lemma_prime_beyond(n: int)
    requires
        n >= 1,
    ensures
        exists|q: int| is_prime(q) && q > n,
{
    let f = factorial_spec(n as nat) as int;
    lemma_factorial_pos(n as nat);
    let m = f + 1;
    lemma_least_divisor_prime(m);
    let s = least_divisor_from(m, 2);
    if s <= n {
        lemma_factorial_divisible(n as nat, s);
        vstd::arithmetic::div_mod::lemma_add_mod_noop(f, 1, s);
        vstd::arithmetic::div_mod::lemma_small_mod(1, s as nat);
    }
    assert(is_prime(s) && s > n);
}

/// The first prime in `[a, b]`, given that `b` is prime.
proof fn lemma_first_prime_in(n: int, a: int, b: int)
    requires
        n < a <= b,
        is_prime(b),
        forall|m: int| n < m < a ==> !#[trigger] is_prime(m),
    ensures
        exists|q: int| is_prime(q) && q > n && forall|m: int| n < m < q ==> !#[trigger] is_prime(m),
    decreases b - a,
{
    if !is_prime(a) {
        lemma_first_prime_in(n, a + 1, b);
    }
}

/// The first prime after `n` exists, is unique, and bounds every prime
/// beyond `n` from below.
proof fn lemma_next_prime(n: int)
    requires
        n >= 1,
    ensures
        is_prime(next_prime_after(n)),
        next_prime_after(n) > n,
        forall|m: int| n < m < next_prime_after(n) ==> !#[trigger] is_prime(m),
        forall|q: int| is_prime(q) && q > n ==> q >= next_prime_after(n),
{
    lemma_prime_beyond(n);
    let q = choose|q: int| is_prime(q) && q > n;
    lemma_first_prime_in(n, n + 1, q);
}

/// The primes are enumerated in increasing order, and every prime up to the
/// `k`-th one is one of the first `k + 1`.
proof fn lemma_nth_prime(k: nat)
    ensures
        is_prime(nth_prime_spec(k)),
        forall|j: nat| j < k ==> #[trigger] nth_prime_spec(j) < nth_prime_spec(k),
        forall|r: int|
            is_prime(r) && r <= nth_prime_spec(k) ==> exists|j: nat|
                j <= k && #[trigger] nth_prime_spec(j) == r,
    decreases k,
{
    if k == 0 {
        assert(is_prime(2)) by {
            assert forall|d: int| 2 <= d < 2 implies !#[trigger] divides(d, 2) by {}
        }
        assert forall|r: int| is_prime(r) && r <= nth_prime_spec(k) implies exists|j: nat|
            j <= k && #[trigger] nth_prime_spec(j) == r by {
            assert(nth_prime_spec(0) == r);
        }
    } else {
        lemma_nth_prime((k - 1) as nat);
        let p = nth_prime_spec((k - 1) as nat);
        lemma_next_prime(p);
        assert forall|r: int| is_prime(r) && r <= nth_prime_spec(k) implies exists|j: nat|
            j <= k && #[trigger] nth_prime_spec(j) == r by {
            if r == nth_prime_spec(k) {
                assert(nth_prime_spec(k) == r);
            } else {
                assert(r <= p);
                let j = choose|j: nat| j <= (k - 1) as nat && #[trigger] nth_prime_spec(j) == r;
                assert(nth_prime_spec(j) == r);
            }
        }
    }
}

proof fn lemma_nth_prime_lt(i: nat, n: nat)
    requires
        i < n,
    ensures
        nth_prime_spec(i) < nth_prime_spec(n),
{
    lemma_nth_prime(n);
}

/// `n % p` for the trial division.
fn mod_u64(n: u64, p: u64) -> (r: u64)
    requires
        p > 0,
    ensures
        r == n % p,
{
    n % p
}

/// Whether no prime `p` of `primes` with `p² ≤ n` divides `n` (trial division
/// by the known primes, stopping at the first `p² > n`).
pub fn is_prime_by(n: u64, primes: &[u64]) -> (b: bool)
    requires
        forall|i: int, j: int| 0 <= i < j < primes@.len() ==> primes@[i] < primes@[j],
        forall|i: int| 0 <= i < primes@.len() ==> primes@[i] >= 2,
    ensures
        b == !exists|i: int|
            0 <= i < primes@.len() && primes@[i] * primes@[i] <= n && #[trigger] divides(
                primes@[i] as int,
                n as int,
            ),
{
    let mut i: usize = 0;
    while i < primes.len()
        invariant
            i <= primes@.len(),
            forall|a: int, b: int| 0 <= a < b < primes@.len() ==> primes@[a] < primes@[b],
            forall|a: int| 0 <= a < primes@.len() ==> primes@[a] >= 2,
            forall|j: int|
                0 <= j < i ==> !(primes@[j] * primes@[j] <= n && #[trigger] divides(
                    primes@[j] as int,
                    n as int,
                )),
        decreases primes@.len() - i,
    {
        let p = primes[i];
        assert((p as u128) * (p as u128) <= u128::MAX) by (nonlinear_arith)
            requires
                p <= u64::MAX,
        ;
        let sq = (p as u128) * (p as u128);
        if sq > n as u128 {
            assert forall|j: int| i <= j < primes@.len() implies !(primes@[j] * primes@[j] <= n
                && #[trigger] divides(primes@[j] as int, n as int)) by {
                assert(primes@[j] >= p);
                assert(primes@[j] * primes@[j] >= p * p) by (nonlinear_arith)
                    requires
                        primes@[j] >= p,
                        p >= 2,
                ;
            }
            return true;
        }
        if mod_u64(n, p) == 0 {
            assert(divides(primes@[i as int] as int, n as int));
            return false;
        }
        i = i + 1;
    }
    true
}

/// The `idx`-th prime (`idx == 0` gives 2), by extending a list of the primes
/// found so far with trial division.
pub fn nth_prime(idx: usize) -> (p: u64)
    requires
        nth_prime_spec(idx as nat) <= u64::MAX,
    ensures
        p == nth_prime_spec(idx as nat),
{
    let mut primes: Vec<u64> = Vec::new();
    primes.push(2);
    proof {
        lemma_nth_prime(0);
    }
    while primes.len() <= idx
        invariant
            1 <= primes@.len() <= idx + 1,
            nth_prime_spec(idx as nat) <= u64::MAX,
            forall|i: int| 0 <= i < primes@.len() ==> primes@[i] == nth_prime_spec(i as nat),
        decreases idx + 1 - primes@.len(),
    {
        let k = primes.len();
        let last = primes[k - 1];
        let ghost target = nth_prime_spec(k as nat);
        proof {
            lemma_table_facts(primes@, k as nat, idx as nat);
        }
        // Every prime below the candidate is in the list: the candidate
        // starts just above the current largest prime.
        let mut cand = last + 1;
        while !is_prime_by(cand, primes.as_slice())
            invariant
                primes@.len() == k,
                1 <= k <= idx,
                last == primes@[k - 1],
                target == nth_prime_spec(k as nat),
                target == next_prime_after(last as int),
                is_prime(target),
                target <= u64::MAX,
                last < cand <= target,
                forall|m: int| last < m < cand ==> !#[trigger] is_prime(m),
                forall|i: int| 0 <= i < primes@.len() ==> primes@[i] == nth_prime_spec(i as nat),
                forall|a: int, b: int| 0 <= a < b < primes@.len() ==> primes@[a] < primes@[b],
                forall|a: int| 0 <= a < primes@.len() ==> primes@[a] >= 2,
                forall|r: int|
                    is_prime(r) && r <= last ==> exists|j: int|
                        0 <= j < k && #[trigger] primes@[j] == r,
            decreases target - cand,
        {
            proof {
                lemma_candidate_prime(cand as int, last as int, primes@);
                if cand == target {
                    assert(false);
                }
            }
            cand = cand + 1;
        }
        proof {
            lemma_candidate_prime(cand as int, last as int, primes@);
        }
        primes.push(cand);
        proof {
            assert(primes@[k as int] == nth_prime_spec(k as nat));
        }
    }
    primes[idx]
}

/// What a list of the first `k` primes tells about the next one.
proof fn lemma_table_facts(primes: Seq<u64>, k: nat, idx: nat)
    requires
        primes.len() == k,
        1 <= k <= idx,
        forall|i: int| 0 <= i < primes.len() ==> primes[i] == nth_prime_spec(i as nat),
        nth_prime_spec(idx) <= u64::MAX,
    ensures
        forall|a: int, b: int| 0 <= a < b < primes.len() ==> primes[a] < primes[b],
        forall|a: int| 0 <= a < primes.len() ==> primes[a] >= 2,
        forall|r: int|
            is_prime(r) && r <= primes[k - 1] ==> exists|j: int|
                0 <= j < k && #[trigger] primes[j] == r,
        nth_prime_spec(k) == next_prime_after(primes[k - 1] as int),
        is_prime(nth_prime_spec(k)),
        nth_prime_spec(k) <= u64::MAX,
        nth_prime_spec(k) > primes[k - 1],
        forall|m: int| primes[k - 1] < m < nth_prime_spec(k) ==> !#[trigger] is_prime(m),
{
    lemma_nth_prime(k);
    lemma_nth_prime((k - 1) as nat);
    lemma_nth_prime(idx);
    let last = primes[k - 1];
    assert(nth_prime_spec((k - 1) as nat) == last);
    lemma_next_prime(last as int);
    if k < idx {
        assert(nth_prime_spec(k) < nth_prime_spec(idx));
    }
    assert forall|a: int, b: int| 0 <= a < b < primes.len() implies primes[a] < primes[b] by {
        lemma_nth_prime(b as nat);
        assert(nth_prime_spec(a as nat) < nth_prime_spec(b as nat));
    }
    assert forall|a: int| 0 <= a < primes.len() implies primes[a] >= 2 by {
        lemma_nth_prime(a as nat);
    }
    assert forall|r: int| is_prime(r) && r <= primes[k - 1] implies exists|j: int|
        0 <= j < k && #[trigger] primes[j] == r by {
        let j = choose|j: nat| j <= (k - 1) as nat && #[trigger] nth_prime_spec(j) == r;
        assert(primes[j as int] == r);
    }
}

/// A candidate above the largest known prime, with no prime between them,
/// passes trial division by the known primes exactly when it is prime.
proof fn lemma_candidate_prime(cand: int, last: int, primes: Seq<u64>)
    requires
        last < cand,
        last >= 2,
        forall|m: int| last < m < cand ==> !#[trigger] is_prime(m),
        forall|a: int| 0 <= a < primes.len() ==> primes[a] >= 2,
        forall|r: int|
            is_prime(r) && r <= last ==> exists|j: int| 0 <= j < primes.len() && #[trigger] primes[j] == r,
    ensures
        is_prime(cand) <==> !exists|i: int|
            0 <= i < primes.len() && primes[i] * primes[i] <= cand && #[trigger] divides(
                primes[i] as int,
                cand,
            ),
{
    if is_prime(cand) {
        assert forall|i: int| 0 <= i < primes.len() && primes[i] * primes[i] <= cand implies !#[trigger] divides(
            primes[i] as int,
            cand,
        ) by {
            let p = primes[i] as int;
            assert(p < cand) by (nonlinear_arith)
                requires
                    p * p <= cand,
                    p >= 2,
            ;
        }
    } else {
        lemma_least_divisor_prime(cand);
        let s = least_divisor_from(cand, 2);
        assert(s < cand) by (nonlinear_arith)
            requires
                s * s <= cand,
                s >= 2,
        ;
        assert(s <= last);
        let j = choose|j: int| 0 <= j < primes.len() && #[trigger] primes[j] == s;
        assert(divides(primes[j] as int, cand));
    }
}


// ---- exponent vectors -------------------------------------------------------------

/// Every prime with a slot in `s` is at most `n`: the vector is empty or its
/// last slot belongs to a prime `≤ n`.
pub open spec fn support_le(s: Seq<u32>, n: int) -> bool {
    s.len() == 0 || nth_prime_spec((s.len() - 1) as nat) <= n
}

/// Entry `i` of an exponent vector, `0` beyond its end.
pub open spec fn exp_at(s: Seq<u32>, i: int) -> int {
    if 0 <= i < s.len() {
        s[i] as int
    } else {
        0
    }
}

/// The larger of two lengths.
pub open spec fn max_len(a: nat, b: nat) -> nat {
    if a >= b {
        a
    } else {
        b
    }
}

/// Whether the last exponent is non-zero (or the vector is empty).
pub open spec fn trimmed(s: Seq<u32>) -> bool {
    s.len() == 0 || s.last() != 0
}

/// `s` without its trailing zero exponents.
pub open spec fn trim_spec(s: Seq<u32>) -> Seq<u32>
    decreases s.len(),
{
    if s.len() > 0 && s.last() == 0 {
        trim_spec(s.drop_last())
    } else {
        s
    }
}

/// Exponent-wise sum (product of the factorized integers).
pub open spec fn exps_add(a: Seq<u32>, b: Seq<u32>) -> Seq<u32> {
    Seq::new(max_len(a.len(), b.len()), |i: int| (exp_at(a, i) + exp_at(b, i)) as u32)
}

/// Whether the exponent-wise sum of `a` and `b` fits in `u32`.
pub open spec fn exps_add_fits(a: Seq<u32>, b: Seq<u32>) -> bool {
    forall|i: int| 0 <= i < max_len(a.len(), b.len()) ==> exp_at(a, i) + exp_at(b, i) <= u32::MAX
}

/// Exponent-wise difference over the length of `a`.
pub open spec fn exps_sub(a: Seq<u32>, b: Seq<u32>) -> Seq<u32> {
    Seq::new(a.len(), |i: int| (exp_at(a, i) - exp_at(b, i)) as u32)
}

/// Exponent-wise maximum (lcm of the factorized integers).
pub open spec fn exps_max(a: Seq<u32>, b: Seq<u32>) -> Seq<u32> {
    Seq::new(
        max_len(a.len(), b.len()),
        |i: int|
            if exp_at(a, i) >= exp_at(b, i) {
                exp_at(a, i) as u32
            } else {
                exp_at(b, i) as u32
            },
    )
}

/// Exponent-wise minimum over the common length (gcd of the factorized
/// integers, before trimming).
pub open spec fn exps_min(a: Seq<u32>, b: Seq<u32>) -> Seq<u32> {
    Seq::new(
        if a.len() <= b.len() {
            a.len()
        } else {
            b.len()
        },
        |i: int|
            if a[i] <= b[i] {
                a[i]
            } else {
                b[i]
            },
    )
}

/// `Π_{i < len} prime(i)^exp_at(s, i)`.
pub open spec fn prod_upto(s: Seq<u32>, len: nat) -> int
    decreases len,
{
    if len == 0 {
        1
    } else {
        prod_upto(s, (len - 1) as nat) * vstd::arithmetic::power::pow(
            nth_prime_spec((len - 1) as nat),
            exp_at(s, len - 1) as nat,
        )
    }
}

/// The positive integer `Π prime(i)^s[i]`.
pub open spec fn pf_value(s: Seq<u32>) -> int {
    prod_upto(s, s.len())
}

/// Drop trailing zero exponents so the representation is canonical.
pub fn trim(powers: &mut Vec<u32>)
    ensures
        final(powers)@ == trim_spec(old(powers)@),
        trimmed(final(powers)@),
{
    while powers.len() > 0 && powers[powers.len() - 1] == 0
        invariant
            trim_spec(powers@) == trim_spec(old(powers)@),
        decreases powers@.len(),
    {
        let ghost before = powers@;
        powers.pop();
        assert(powers@ =~= before.drop_last());
    }
}

/// A signed integer stored as `sign · Π prime(i)^powers[i]`.
///
/// `powers[i]` is the exponent of the `i`-th prime (`powers[0]` is that of
/// 2). The vector is kept with a non-zero last entry (an empty vector is the
/// integer 1, or 0 when `sign == 0`); `sign` is `-1`, `0`, or `+1`.
#[derive(Debug, PartialEq, Eq)]
pub struct Pf {
    powers: Vec<u32>,
    sign: i8,
}

impl Clone for Pf {
    fn clone(&self) -> (c: Self)
        ensures
            c.powers_spec() == self.powers_spec(),
            c.sign_spec() == self.sign_spec(),
    {
        Pf { powers: copy_exps(self.powers.as_slice()), sign: self.sign }
    }
}

impl Pf {
    /// The exponent vector.
    pub closed spec fn powers_spec(&self) -> Seq<u32> {
        self.powers@
    }

    /// The sign.
    pub closed spec fn sign_spec(&self) -> i8 {
        self.sign
    }

    /// The representation is canonical: trimmed exponents and a sign in
    /// `{-1, 0, 1}`.
    pub open spec fn wf(&self) -> bool {
        &&& trimmed(self.powers_spec())
        &&& -1 <= self.sign_spec() <= 1
    }

    /// The integer `sign · Π prime(i)^powers[i]`.
    pub open spec fn value(&self) -> int {
        self.sign_spec() * pf_value(self.powers_spec())
    }

    /// The exponent vector.
    pub fn powers(&self) -> (p: &[u32])
        ensures
            p@ == self.powers_spec(),
    {
        self.powers.as_slice()
    }

    /// The sign.
    pub fn sign(&self) -> (s: i8)
        ensures
            s == self.sign_spec(),
    {
        self.sign
    }

    /// The integer this factorization stands for, as a big integer: the only
    /// place a prime is raised to a power and multiplied out.
    pub fn to_bigint(&self) -> (b: BigInt)
        requires
            self.wf(),
            support_le(self.powers_spec(), u64::MAX as int),
        ensures
            bigint_value(b) == self.value(),
    {
        if self.sign == 0 {
            return big_from_u64(0);
        }
        let n = self.powers.len();
        let mut acc = big_from_u64(1);
        let mut i: usize = 0;
        while i < n
            invariant
                n == self.powers@.len(),
                i <= n,
                support_le(self.powers@, u64::MAX as int),
                bigint_value(acc) == prod_upto(self.powers@, i as nat),
            decreases n - i,
        {
            let e = self.powers[i];
            proof {
                if i + 1 < n {
                    lemma_nth_prime_lt(i as nat, (n - 1) as nat);
                }
                assert(exp_at(self.powers@, i as int) == e);
            }
            if e != 0 {
                let p = big_from_u64(nth_prime(i));
                let q = big_pow(&p, e);
                acc = big_mul(&acc, &q);
            } else {
                proof {
                    vstd::arithmetic::power::lemma_pow0(nth_prime_spec(i as nat));
                }
            }
            i = i + 1;
        }
        assert(pf_value(self.powers@) == prod_upto(self.powers@, n as nat));
        if self.sign < 0 {
            assert(self.sign == -1);
            assert(self.value() == -pf_value(self.powers@));
            big_neg(acc)
        } else {
            assert(self.sign == 1);
            assert(self.value() == pf_value(self.powers@));
            acc
        }
    }

    /// The integer 1.
    pub fn one() -> (p: Self)
        ensures
            p.wf(),
            p.powers_spec().len() == 0,
            p.sign_spec() == 1,
    {
        Pf { powers: Vec::new(), sign: 1 }
    }

    /// The positive integer with the given exponents, trimmed.
    pub fn from_powers(powers: Vec<u32>) -> (p: Self)
        ensures
            p.wf(),
            p.powers_spec() == trim_spec(powers@),
            p.sign_spec() == 1,
    {
        let mut powers = powers;
        trim(&mut powers);
        Pf { powers, sign: 1 }
    }

    /// The negation.
    pub fn neg(self) -> (p: Self)
        requires
            self.wf(),
        ensures
            p.wf(),
            p.powers_spec() == self.powers_spec(),
            p.sign_spec() == -self.sign_spec(),
    {
        let mut p = self;
        p.sign = -p.sign;
        p
    }

    /// Whether this is the integer 0.
    pub fn is_zero(&self) -> (z: bool)
        ensures
            z == (self.sign_spec() == 0),
    {
        self.sign == 0
    }

    /// `self *= prime-power vector powers`, exponent-wise (sign unchanged;
    /// nothing changes for 0).
    pub fn mul_by_powers(&mut self, powers: &[u32])
        requires
            old(self).wf(),
            trimmed(powers@),
            exps_add_fits(old(self).powers_spec(), powers@),
        ensures
            final(self).wf(),
            final(self).sign_spec() == old(self).sign_spec(),
            old(self).sign_spec() == 0 ==> final(self).powers_spec() == old(self).powers_spec(),
            old(self).sign_spec() != 0 ==> final(self).powers_spec() == exps_add(
                old(self).powers_spec(),
                powers@,
            ),
    {
        if self.sign == 0 {
            return;
        }
        let ghost a = self.powers@;
        let ghost sg = self.sign;
        while self.powers.len() < powers.len()
            invariant
                self.sign == sg,
                self.powers@.len() <= max_len(a.len(), powers@.len()),
                self.powers@.len() >= a.len(),
                forall|i: int| 0 <= i < self.powers@.len() ==> self.powers@[i] == exp_at(a, i),
            decreases powers@.len() - self.powers@.len(),
        {
            self.powers.push(0);
        }
        let n = powers.len();
        let mut i: usize = 0;
        while i < n
            invariant
                n == powers@.len(),
                self.sign == sg,
                self.powers@.len() == max_len(a.len(), powers@.len()),
                exps_add_fits(a, powers@),
                i <= n,
                forall|j: int| 0 <= j < i ==> self.powers@[j] == exp_at(a, j) + exp_at(powers@, j),
                forall|j: int|
                    i <= j < self.powers@.len() ==> self.powers@[j] == exp_at(a, j),
            decreases n - i,
        {
            assert(exp_at(a, i as int) + exp_at(powers@, i as int) <= u32::MAX);
            let x = self.powers[i] + powers[i];
            self.powers.set(i, x);
            i = i + 1;
        }
        assert(self.powers@ =~= exps_add(a, powers@));
        proof {
            lemma_add_trimmed(a, powers@);
        }
    }

    /// `self *= other`: exponent vectors add, signs multiply.
    pub fn mul_assign(&mut self, other: &Pf)
        requires
            old(self).wf(),
            other.wf(),
            exps_add_fits(old(self).powers_spec(), other.powers_spec()),
        ensures
            final(self).wf(),
            final(self).sign_spec() == old(self).sign_spec() * other.sign_spec(),
            old(self).sign_spec() == 0 || other.sign_spec() == 0 ==> final(self).powers_spec().len()
                == 0,
            old(self).sign_spec() != 0 && other.sign_spec() != 0 ==> final(self).powers_spec()
                == exps_add(old(self).powers_spec(), other.powers_spec()),
            final(self).value() == old(self).value() * other.value(),
            final(self).powers_spec().len() <= max_len(
                old(self).powers_spec().len(),
                other.powers_spec().len(),
            ),
    {
        if self.sign == 0 || other.sign == 0 {
            proof {
                let (x, y) = (self.value(), other.value());
                assert(x == 0 || y == 0);
                assert(x * y == 0) by (nonlinear_arith)
                    requires
                        x == 0 || y == 0,
                ;
            }
            self.sign = 0;
            self.powers = Vec::new();
            return;
        }
        let ghost a = self.powers@;
        let ghost sa = self.sign;
        let s = if other.sign < 0 {
            -self.sign
        } else {
            self.sign
        };
        assert(s == self.sign * other.sign) by (nonlinear_arith)
            requires
                other.sign == 1 || other.sign == -1,
                s == if other.sign < 0 {
                    -self.sign
                } else {
                    self.sign as int
                },
        ;
        self.sign = s;
        self.mul_by_powers(other.powers.as_slice());
        proof {
            let b = other.powers@;
            lemma_pf_value_add(a, b);
            let (x, y) = (pf_value(a), pf_value(b));
            let sb = other.sign as int;
            assert((sa * sb) * (x * y) == (sa * x) * (sb * y)) by (nonlinear_arith);
        }
    }

    /// `self /= other`, exact division: exponent vectors subtract, signs
    /// multiply (nothing changes for 0). `other` must divide `self`.
    pub fn divexact_assign(&mut self, other: &Pf)
        requires
            old(self).wf(),
            other.wf(),
            other.sign_spec() != 0,
            old(self).sign_spec() != 0 ==> other.powers_spec().len() <= old(self).powers_spec().len(),
            old(self).sign_spec() != 0 ==> forall|i: int|
                0 <= i < other.powers_spec().len() ==> other.powers_spec()[i]
                    <= old(self).powers_spec()[i],
        ensures
            final(self).wf(),
            old(self).sign_spec() == 0 ==> *final(self) == *old(self),
            old(self).sign_spec() != 0 ==> final(self).sign_spec() == old(self).sign_spec()
                * other.sign_spec(),
            old(self).sign_spec() != 0 ==> final(self).powers_spec() == trim_spec(
                exps_sub(old(self).powers_spec(), other.powers_spec()),
            ),
            final(self).value() * other.value() == old(self).value(),
            final(self).powers_spec().len() <= old(self).powers_spec().len(),
    {
        if self.sign == 0 {
            assert(0 * other.value() == 0);
            return;
        }
        let ghost sa = self.sign;
        let s = if other.sign < 0 {
            -self.sign
        } else {
            self.sign
        };
        assert(s == self.sign * other.sign) by (nonlinear_arith)
            requires
                other.sign == 1 || other.sign == -1,
                s == if other.sign < 0 {
                    -self.sign
                } else {
                    self.sign as int
                },
        ;
        self.sign = s;
        let ghost a = self.powers@;
        let n = other.powers.len();
        let mut i: usize = 0;
        while i < n
            invariant
                n == other.powers@.len() <= a.len(),
                self.sign == s,
                self.powers@.len() == a.len(),
                forall|j: int| 0 <= j < n ==> other.powers@[j] <= a[j],
                i <= n,
                forall|j: int| 0 <= j < i ==> self.powers@[j] == a[j] - other.powers@[j],
                forall|j: int| i <= j < a.len() ==> self.powers@[j] == a[j],
            decreases n - i,
        {
            assert(other.powers@[i as int] <= a[i as int]);
            assert(self.powers@[i as int] == a[i as int]);
            let x = self.powers[i] - other.powers[i];
            self.powers.set(i, x);
            i = i + 1;
        }
        assert(self.powers@ =~= exps_sub(a, other.powers@));
        trim(&mut self.powers);
        proof {
            let b = other.powers@;
            lemma_pf_value_trim(exps_sub(a, b));
            lemma_pf_value_sub(a, b);
            lemma_trim_len(exps_sub(a, b));
            let (x, y) = (pf_value(exps_sub(a, b)), pf_value(b));
            let sb = other.sign as int;
            assert((sa * sb) * x * (sb * y) == sa * (x * y)) by (nonlinear_arith)
                requires
                    sb == 1 || sb == -1,
            ;
        }
    }

    /// `self = lcm(self, other)` (positive): exponent-wise maximum.
    pub fn lcm_assign(&mut self, other: &Pf)
        requires
            old(self).wf(),
            other.wf(),
        ensures
            final(self).wf(),
            final(self).sign_spec() == 1,
            final(self).powers_spec() == exps_max(old(self).powers_spec(), other.powers_spec()),
    {
        self.sign = 1;
        let ghost a = self.powers@;
        while self.powers.len() < other.powers.len()
            invariant
                self.sign == 1,
                self.powers@.len() <= max_len(a.len(), other.powers@.len()),
                self.powers@.len() >= a.len(),
                forall|i: int| 0 <= i < self.powers@.len() ==> self.powers@[i] == exp_at(a, i),
            decreases other.powers@.len() - self.powers@.len(),
        {
            self.powers.push(0);
        }
        let n = other.powers.len();
        let mut i: usize = 0;
        while i < n
            invariant
                n == other.powers@.len(),
                self.sign == 1,
                self.powers@.len() == max_len(a.len(), other.powers@.len()),
                i <= n,
                forall|j: int|
                    0 <= j < i ==> self.powers@[j] == (if exp_at(a, j) >= exp_at(other.powers@, j) {
                        exp_at(a, j)
                    } else {
                        exp_at(other.powers@, j)
                    }),
                forall|j: int|
                    i <= j < self.powers@.len() ==> self.powers@[j] == exp_at(a, j),
            decreases n - i,
        {
            let x = self.powers[i];
            let y = other.powers[i];
            if y > x {
                self.powers.set(i, y);
            }
            i = i + 1;
        }
        assert(self.powers@ =~= exps_max(a, other.powers@));
        proof {
            lemma_max_trimmed(a, other.powers@);
        }
    }

    /// `self = gcd(self, other)` (positive): exponent-wise minimum, trimmed.
    pub fn gcd_assign(&mut self, other: &Pf)
        requires
            old(self).wf(),
            other.wf(),
        ensures
            final(self).wf(),
            final(self).sign_spec() == 1,
            final(self).powers_spec() == trim_spec(
                exps_min(old(self).powers_spec(), other.powers_spec()),
            ),
    {
        self.sign = 1;
        let ghost a = self.powers@;
        let l = if self.powers.len() <= other.powers.len() {
            self.powers.len()
        } else {
            other.powers.len()
        };
        self.powers.truncate(l);
        let mut i: usize = 0;
        while i < l
            invariant
                l <= a.len(),
                l <= other.powers@.len(),
                self.sign == 1,
                self.powers@.len() == l,
                i <= l,
                forall|j: int|
                    0 <= j < i ==> self.powers@[j] == (if a[j] <= other.powers@[j] {
                        a[j]
                    } else {
                        other.powers@[j]
                    }),
                forall|j: int| i <= j < l ==> self.powers@[j] == a[j],
            decreases l - i,
        {
            let x = self.powers[i];
            let y = other.powers[i];
            if y < x {
                self.powers.set(i, y);
            }
            i = i + 1;
        }
        assert(self.powers@ =~= exps_min(a, other.powers@));
        trim(&mut self.powers);
    }

    /// Split off the common gcd of `a` and `b` in place, so afterwards they
    /// share no prime: over the common length each exponent loses the
    /// minimum of the two.
    pub fn divgcd(a: &mut Pf, b: &mut Pf)
        requires
            old(a).wf(),
            old(b).wf(),
        ensures
            final(a).wf(),
            final(b).wf(),
            final(a).sign_spec() == old(a).sign_spec(),
            final(b).sign_spec() == old(b).sign_spec(),
            final(a).powers_spec() == trim_spec(
                exps_sub(old(a).powers_spec(), exps_min(old(a).powers_spec(), old(b).powers_spec())),
            ),
            final(b).powers_spec() == trim_spec(
                exps_sub(old(b).powers_spec(), exps_min(old(a).powers_spec(), old(b).powers_spec())),
            ),
            final(a).value() * old(b).value() == old(a).value() * final(b).value(),
            final(a).powers_spec().len() <= old(a).powers_spec().len(),
            final(b).powers_spec().len() <= old(b).powers_spec().len(),
    {
        let ghost a0 = a.powers@;
        let ghost b0 = b.powers@;
        let l = if a.powers.len() <= b.powers.len() {
            a.powers.len()
        } else {
            b.powers.len()
        };
        let mut k: usize = 0;
        while k < l
            invariant
                l <= a0.len(),
                l <= b0.len(),
                l == exps_min(a0, b0).len(),
                a.powers@.len() == a0.len(),
                b.powers@.len() == b0.len(),
                k <= l,
                forall|j: int| 0 <= j < k ==> a.powers@[j] == a0[j] - exps_min(a0, b0)[j],
                forall|j: int| 0 <= j < k ==> b.powers@[j] == b0[j] - exps_min(a0, b0)[j],
                forall|j: int| k <= j < a0.len() ==> a.powers@[j] == a0[j],
                forall|j: int| k <= j < b0.len() ==> b.powers@[j] == b0[j],
                a.sign == old(a).sign,
                b.sign == old(b).sign,
            decreases l - k,
        {
            let x = a.powers[k];
            let y = b.powers[k];
            let g = if x <= y {
                x
            } else {
                y
            };
            a.powers.set(k, x - g);
            b.powers.set(k, y - g);
            k = k + 1;
        }
        assert(a.powers@ =~= exps_sub(a0, exps_min(a0, b0)));
        assert(b.powers@ =~= exps_sub(b0, exps_min(a0, b0)));
        trim(&mut a.powers);
        trim(&mut b.powers);
        proof {
            let m = exps_min(a0, b0);
            lemma_pf_value_trim(exps_sub(a0, m));
            lemma_pf_value_trim(exps_sub(b0, m));
            lemma_pf_value_sub(a0, m);
            lemma_pf_value_sub(b0, m);
            lemma_trim_len(exps_sub(a0, m));
            lemma_trim_len(exps_sub(b0, m));
            let (x, y, g) = (pf_value(exps_sub(a0, m)), pf_value(exps_sub(b0, m)), pf_value(m));
            let (sa, sb) = (a.sign as int, b.sign as int);
            assert((sa * x) * (sb * (y * g)) == (sa * (x * g)) * (sb * y)) by (nonlinear_arith);
        }
    }

    /// Split `self = s² · r` with `r` square-free (every exponent 0 or 1);
    /// `r` carries the sign.
    pub fn splitsquare(&self) -> (res: (Pf, Pf))
        requires
            self.wf(),
        ensures
            res.0.wf(),
            res.1.wf(),
            res.0.sign_spec() == 1,
            res.1.sign_spec() == self.sign_spec(),
            res.0.powers_spec() == trim_spec(
                Seq::new(self.powers_spec().len(), |i: int| self.powers_spec()[i] / 2),
            ),
            res.1.powers_spec() == trim_spec(
                Seq::new(self.powers_spec().len(), |i: int| self.powers_spec()[i] % 2),
            ),
            res.0.value() * res.0.value() * res.1.value() == self.value(),
            res.0.powers_spec().len() <= self.powers_spec().len(),
            res.1.powers_spec().len() <= self.powers_spec().len(),
    {
        let n = self.powers.len();
        let mut half: Vec<u32> = Vec::new();
        let mut odd: Vec<u32> = Vec::new();
        let mut i: usize = 0;
        while i < n
            invariant
                n == self.powers@.len(),
                i <= n,
                half@ == Seq::new(i as nat, |j: int| self.powers@[j] / 2),
                odd@ == Seq::new(i as nat, |j: int| self.powers@[j] % 2),
            decreases n - i,
        {
            half.push(self.powers[i] / 2);
            odd.push(self.powers[i] % 2);
            i = i + 1;
            assert(half@ =~= Seq::new(i as nat, |j: int| self.powers@[j] / 2));
            assert(odd@ =~= Seq::new(i as nat, |j: int| self.powers@[j] % 2));
        }
        let ghost h = half@;
        let ghost o = odd@;
        let s = Pf::from_powers(half);
        let mut r = Pf::from_powers(odd);
        r.sign = self.sign;
        proof {
            let a = self.powers@;
            assert(exps_add_fits(h, h));
            let hh = exps_add(h, h);
            assert forall|i: int| 0 <= i < max_len(hh.len(), o.len()) implies exp_at(hh, i) + exp_at(
                o,
                i,
            ) <= u32::MAX by {
                assert(exp_at(hh, i) + exp_at(o, i) == a[i]);
            }
            assert(exps_add(hh, o) =~= a);
            lemma_pf_value_add(h, h);
            lemma_pf_value_add(hh, o);
            lemma_pf_value_trim(h);
            lemma_pf_value_trim(o);
            lemma_trim_len(h);
            lemma_trim_len(o);
            let (x, y) = (pf_value(h), pf_value(o));
            let sg = self.sign as int;
            assert(x * x * (sg * y) == sg * ((x * x) * y)) by (nonlinear_arith);
        }
        (s, r)
    }
}

proof fn lemma_add_trimmed(a: Seq<u32>, b: Seq<u32>)
    requires
        trimmed(a),
        trimmed(b),
        exps_add_fits(a, b),
    ensures
        trimmed(exps_add(a, b)),
{
    let s = exps_add(a, b);
    if s.len() > 0 {
        let k = s.len() - 1;
        if a.len() == s.len() {
            assert(exp_at(a, k) == a.last());
        } else {
            assert(exp_at(b, k) == b.last());
        }
    }
}

proof fn lemma_max_trimmed(a: Seq<u32>, b: Seq<u32>)
    requires
        trimmed(a),
        trimmed(b),
    ensures
        trimmed(exps_max(a, b)),
{
    let s = exps_max(a, b);
    if s.len() > 0 {
        let k = s.len() - 1;
        if a.len() == s.len() {
            assert(exp_at(a, k) == a.last());
        } else {
            assert(exp_at(b, k) == b.last());
        }
    }
}


// ---- the value of an exponent vector ----------------------------------------------

proof fn lemma_prod_upto_pos(s: Seq<u32>, len: nat)
    ensures
        prod_upto(s, len) >= 1,
    decreases len,
{
    if len > 0 {
        lemma_prod_upto_pos(s, (len - 1) as nat);
        lemma_nth_prime((len - 1) as nat);
        let q = vstd::arithmetic::power::pow(
            nth_prime_spec((len - 1) as nat),
            exp_at(s, len - 1) as nat,
        );
        vstd::arithmetic::power::lemma_pow_positive(
            nth_prime_spec((len - 1) as nat),
            exp_at(s, len - 1) as nat,
        );
        assert(prod_upto(s, (len - 1) as nat) * q >= 1) by (nonlinear_arith)
            requires
                prod_upto(s, (len - 1) as nat) >= 1,
                q >= 1,
        ;
    }
}

/// Exponents beyond the end are zero, so the product up to any length at
/// least the vector's is its value.
proof fn lemma_prod_upto_beyond(s: Seq<u32>, len: nat)
    requires
        len >= s.len(),
    ensures
        prod_upto(s, len) == pf_value(s),
    decreases len,
{
    if len > s.len() {
        lemma_prod_upto_beyond(s, (len - 1) as nat);
        vstd::arithmetic::power::lemma_pow0(nth_prime_spec((len - 1) as nat));
    }
}

/// Exponent-wise addition multiplies the values, up to any length.
proof fn lemma_prod_upto_add(a: Seq<u32>, b: Seq<u32>, len: nat)
    requires
        exps_add_fits(a, b),
        len <= max_len(a.len(), b.len()),
    ensures
        prod_upto(exps_add(a, b), len) == prod_upto(a, len) * prod_upto(b, len),
    decreases len,
{
    if len > 0 {
        let k = (len - 1) as nat;
        lemma_prod_upto_add(a, b, k);
        let p = nth_prime_spec(k);
        let x = exp_at(a, k as int) as nat;
        let y = exp_at(b, k as int) as nat;
        assert(exp_at(exps_add(a, b), k as int) == x + y);
        vstd::arithmetic::power::lemma_pow_adds(p, x, y);
        let pa = prod_upto(a, k);
        let pb = prod_upto(b, k);
        let qx = vstd::arithmetic::power::pow(p, x);
        let qy = vstd::arithmetic::power::pow(p, y);
        assert((pa * pb) * (qx * qy) == (pa * qx) * (pb * qy)) by (nonlinear_arith);
    }
}

/// Multiplying prime-factorized integers adds their exponent vectors.
pub proof fn lemma_pf_value_add(a: Seq<u32>, b: Seq<u32>)
    requires
        exps_add_fits(a, b),
    ensures
        pf_value(exps_add(a, b)) == pf_value(a) * pf_value(b),
{
    let n = max_len(a.len(), b.len());
    lemma_prod_upto_add(a, b, n);
    lemma_prod_upto_beyond(a, n);
    lemma_prod_upto_beyond(b, n);
}

/// Trailing zero exponents do not change the value.
pub proof fn lemma_pf_value_trim(s: Seq<u32>)
    ensures
        pf_value(trim_spec(s)) == pf_value(s),
    decreases s.len(),
{
    if s.len() > 0 && s.last() == 0 {
        lemma_pf_value_trim(s.drop_last());
        lemma_prod_upto_beyond(s.drop_last(), s.len());
        assert forall|i: int| 0 <= i < s.len() implies exp_at(s.drop_last(), i) == exp_at(s, i) by {}
        lemma_prod_upto_same(s.drop_last(), s, s.len());
    }
}

/// A prime-factorized magnitude is at least 1.
pub proof fn lemma_pf_value_pos(s: Seq<u32>)
    ensures
        pf_value(s) >= 1,
{
    lemma_prod_upto_pos(s, s.len());
}

/// Exact division subtracts exponent vectors.
pub proof fn lemma_pf_value_sub(a: Seq<u32>, b: Seq<u32>)
    requires
        b.len() <= a.len(),
        forall|i: int| 0 <= i < b.len() ==> b[i] <= a[i],
    ensures
        pf_value(exps_sub(a, b)) * pf_value(b) == pf_value(a),
{
    let d = exps_sub(a, b);
    assert forall|i: int| 0 <= i < max_len(d.len(), b.len()) implies exp_at(d, i) + exp_at(b, i)
        <= u32::MAX by {
        assert(exp_at(d, i) == exp_at(a, i) - exp_at(b, i));
    }
    assert(exps_add(d, b) =~= a);
    lemma_pf_value_add(d, b);
}

/// Trimming keeps a prefix of the vector.
pub proof fn lemma_trim_len(s: Seq<u32>)
    ensures
        trim_spec(s).len() <= s.len(),
        forall|i: int| 0 <= i < trim_spec(s).len() ==> #[trigger] trim_spec(s)[i] == s[i],
    decreases s.len(),
{
    if s.len() > 0 && s.last() == 0 {
        lemma_trim_len(s.drop_last());
    }
}

/// A shorter vector has its slots among the first primes of a longer one.
pub proof fn lemma_support_mono(s: Seq<u32>, t: Seq<u32>, n: int)
    requires
        t.len() <= s.len(),
        support_le(s, n),
    ensures
        support_le(t, n),
{
    if t.len() > 0 && t.len() < s.len() {
        lemma_nth_prime_lt((t.len() - 1) as nat, (s.len() - 1) as nat);
    }
}

/// The last prime of a trimmed vector divides its value, so it is at most the
/// value.
pub proof fn lemma_support_le_value(s: Seq<u32>)
    requires
        trimmed(s),
    ensures
        support_le(s, pf_value(s)),
{
    if s.len() > 0 {
        let k = (s.len() - 1) as nat;
        let p = nth_prime_spec(k);
        let e = exp_at(s, k as int) as nat;
        assert(e >= 1);
        lemma_nth_prime(k);
        lemma_prod_upto_pos(s, k);
        lemma_pow_ge_base(p, e);
        let q = vstd::arithmetic::power::pow(p, e);
        let a = prod_upto(s, k);
        assert(pf_value(s) == a * q);
        assert(a * q >= q) by (nonlinear_arith)
            requires
                a >= 1,
                q >= 1,
        ;
    }
}

/// `p^e ≥ p` for `p ≥ 2`, `e ≥ 1`.
proof fn lemma_pow_ge_base(p: int, e: nat)
    requires
        p >= 2,
        e >= 1,
    ensures
        vstd::arithmetic::power::pow(p, e) >= p,
{
    vstd::arithmetic::power::lemma_pow_positive(p, (e - 1) as nat);
    reveal(vstd::arithmetic::power::pow);
    let r = vstd::arithmetic::power::pow(p, (e - 1) as nat);
    assert(p * r >= p) by (nonlinear_arith)
        requires
            r >= 1,
            p >= 2,
    ;
}

/// Products up to `len` agree when the exponents agree below `len`.
proof fn lemma_prod_upto_same(a: Seq<u32>, b: Seq<u32>, len: nat)
    requires
        forall|i: int| 0 <= i < len ==> exp_at(a, i) == exp_at(b, i),
    ensures
        prod_upto(a, len) == prod_upto(b, len),
    decreases len,
{
    if len > 0 {
        lemma_prod_upto_same(a, b, (len - 1) as nat);
    }
}

/// The value of an exponent vector extended by one exponent.
proof fn lemma_pf_value_push(s: Seq<u32>, e: u32)
    ensures
        pf_value(s.push(e)) == pf_value(s) * vstd::arithmetic::power::pow(
            nth_prime_spec(s.len()),
            e as nat,
        ),
{
    let t = s.push(e);
    assert forall|i: int| 0 <= i < s.len() implies exp_at(t, i) == exp_at(s, i) by {}
    lemma_prod_upto_same(t, s, s.len());
    assert(exp_at(t, s.len() as int) == e);
}

/// The primes grow at least as fast as their index.
proof fn lemma_nth_prime_ge(k: nat)
    ensures
        nth_prime_spec(k) >= k + 2,
    decreases k,
{
    if k > 0 {
        lemma_nth_prime_ge((k - 1) as nat);
        lemma_nth_prime(k);
    }
}

/// An integer `m > 1` with no prime factor among the first `idx` primes is
/// at least the `idx`-th prime.
proof fn lemma_remaining_factor(m: int, idx: nat)
    requires
        m > 1,
        forall|j: nat| j < idx ==> !#[trigger] divides(nth_prime_spec(j), m),
    ensures
        nth_prime_spec(idx) <= m,
{
    lemma_least_divisor_prime(m);
    let s = least_divisor_from(m, 2);
    lemma_least_divisor(m, 2);
    if s < nth_prime_spec(idx) {
        if idx == 0 {
            assert(s >= 2);
        } else {
            let k = (idx - 1) as nat;
            lemma_nth_prime(k);
            lemma_next_prime(nth_prime_spec(k));
            assert(s <= nth_prime_spec(k));
            let j = choose|j: nat| j <= k && #[trigger] nth_prime_spec(j) == s;
            assert(divides(nth_prime_spec(j), m));
        }
    }
}

/// `pow(p, e) ≥ 2^e` for `p ≥ 2`.
proof fn lemma_pow_ge_pow2(p: int, e: nat)
    requires
        p >= 2,
    ensures
        vstd::arithmetic::power::pow(p, e) >= vstd::arithmetic::power::pow(2, e),
        vstd::arithmetic::power::pow(2, e) >= 1,
    decreases e,
{
    reveal(vstd::arithmetic::power::pow);
    if e > 0 {
        lemma_pow_ge_pow2(p, (e - 1) as nat);
        let a = vstd::arithmetic::power::pow(p, (e - 1) as nat);
        let b = vstd::arithmetic::power::pow(2, (e - 1) as nat);
        assert(p * a >= 2 * b) by (nonlinear_arith)
            requires
                p >= 2,
                a >= b,
                b >= 1,
        ;
    }
}

/// The exponent vector of the prime factorization of `n ≥ 1`, trimmed.
pub fn primefactor_powers(n: u64) -> (powers: Vec<u32>)
    requires
        n >= 1,
        n <= usize::MAX,
    ensures
        trimmed(powers@),
        pf_value(powers@) == n,
        forall|i: int| 0 <= i < powers@.len() ==> powers@[i] < 64,
{
    let mut powers: Vec<u32> = Vec::new();
    let mut m: u64 = n;
    let mut idx: usize = 0;
    while m > 1
        invariant
            m >= 1,
            powers@.len() == idx,
            pf_value(powers@) * m == n,
            forall|j: nat| j < idx ==> !#[trigger] divides(nth_prime_spec(j), m as int),
            forall|i: int| 0 <= i < powers@.len() ==> powers@[i] < 64,
            n <= u64::MAX,
            n <= usize::MAX,
            m <= n,
        decreases m, m - idx,
    {
        proof {
            lemma_remaining_factor(m as int, idx as nat);
            lemma_nth_prime_ge(idx as nat);
            lemma_nth_prime(idx as nat);
            lemma_prod_upto_pos(powers@, powers@.len());
        }
        let p = nth_prime(idx);
        let ghost m0 = m;
        let mut e: u32 = 0;
        proof {
            vstd::arithmetic::power::lemma_pow0(p as int);
        }
        while m % p == 0
            invariant
                p >= 2,
                p == nth_prime_spec(idx as nat),
                m >= 1,
                e < 64,
                m <= m0,
                e == 0 ==> m == m0,
                divides(m as int, m0 as int),
                pf_value(powers@) >= 1,
                pf_value(powers@) * vstd::arithmetic::power::pow(p as int, e as nat) * m == n,
                n <= u64::MAX,
            decreases m,
        {
            let ghost mo = m;
            proof {
                vstd::arithmetic::div_mod::lemma_fundamental_div_mod(m as int, p as int);
            }
            m = m / p;
            proof {
                assert(mo == p * m);
                assert(m >= 1 && m < mo) by (nonlinear_arith)
                    requires
                        mo == p * m,
                        p >= 2,
                        mo >= 1,
                ;
                reveal(vstd::arithmetic::power::pow);
                let q = vstd::arithmetic::power::pow(p as int, e as nat);
                assert(vstd::arithmetic::power::pow(p as int, (e + 1) as nat) == p * q);
                let v = pf_value(powers@);
                assert(v * (p * q) * m == n) by (nonlinear_arith)
                    requires
                        v * q * mo == n,
                        mo == p * m,
                ;
                // (e + 1) < 64, since 2^(e+1) ≤ p^(e+1) ≤ n < 2^64.
                lemma_pow_ge_pow2(p as int, (e + 1) as nat);
                lemma_prod_upto_pos(powers@, powers@.len());
                assert(p * q <= n) by (nonlinear_arith)
                    requires
                        v * (p * q) * m == n,
                        v >= 1,
                        m >= 1,
                        p * q >= 1,
                ;
                vstd::arithmetic::power2::lemma2_to64();
                vstd::arithmetic::power2::lemma_pow2(64);
                vstd::arithmetic::power2::lemma_pow2((e + 1) as nat);
                if e + 1 >= 64 {
                    vstd::arithmetic::power::lemma_pow_increases(2, 64, (e + 1) as nat);
                }
                // m divides m0.
                vstd::arithmetic::div_mod::lemma_mod_multiples_basic(p as int, m as int);
                assert(divides(m as int, mo as int)) by {
                    assert(p * m == mo);
                    assert((p as int) * (m as int) == (m as int) * (p as int)) by (nonlinear_arith);
                }
                lemma_divides_trans(m0 as int, mo as int, m as int);
            }
            e = e + 1;
        }
        proof {
            lemma_divide_out_step(powers@, e, p as int, m as int, m0 as int, idx as nat, n as int);
        }
        powers.push(e);
        idx = idx + 1;
    }
    proof {
        lemma_pf_value_trim(powers@);
    }
    let ghost before = powers@;
    trim(&mut powers);
    proof {
        lemma_trim_entries(before);
        assert forall|i: int| 0 <= i < powers@.len() implies powers@[i] < 64 by {
            assert(powers@[i] == before[i]);
        }
    }
    powers
}

/// After dividing out every factor `p` of the remaining part, the exponent
/// vector extended by `e` accounts for it, and no prime so far divides what
/// remains.
proof fn lemma_divide_out_step(
    powers: Seq<u32>,
    e: u32,
    p: int,
    m: int,
    m0: int,
    idx: nat,
    n: int,
)
    requires
        p == nth_prime_spec(idx),
        powers.len() == idx,
        m >= 1,
        m % p != 0,
        divides(m, m0),
        forall|j: nat| j < idx ==> !#[trigger] divides(nth_prime_spec(j), m0),
        pf_value(powers) * vstd::arithmetic::power::pow(p, e as nat) * m == n,
        e < 64,
        forall|i: int| 0 <= i < powers.len() ==> powers[i] < 64,
    ensures
        pf_value(powers.push(e)) * m == n,
        forall|j: nat| j < idx + 1 ==> !#[trigger] divides(nth_prime_spec(j), m),
        forall|i: int| 0 <= i < powers.push(e).len() ==> powers.push(e)[i] < 64,
{
    lemma_pf_value_push(powers, e);
    assert forall|j: nat| j < idx + 1 implies !#[trigger] divides(nth_prime_spec(j), m) by {
        if j < idx {
            lemma_nth_prime(j);
            lemma_nth_prime_ge(j);
            if divides(nth_prime_spec(j), m) {
                lemma_divides_trans(m0, m, nth_prime_spec(j));
            }
        }
    }
    let v = pf_value(powers);
    let q = vstd::arithmetic::power::pow(p, e as nat);
    assert(v * q * m == (v * q) * m);
}

/// Trimming keeps a prefix.
proof fn lemma_trim_entries(s: Seq<u32>)
    ensures
        trim_spec(s).len() <= s.len(),
        forall|i: int| 0 <= i < trim_spec(s).len() ==> trim_spec(s)[i] == s[i],
    decreases s.len(),
{
    if s.len() > 0 && s.last() == 0 {
        lemma_trim_entries(s.drop_last());
        assert forall|i: int| 0 <= i < trim_spec(s).len() implies trim_spec(s)[i] == s[i] by {
            assert(s.drop_last()[i] == s[i]);
        }
    }
}


// ---- factorials ---------------------------------------------------------------------

/// Bound on the factorial arguments the tables accept (`2^24`): every
/// exponent of `n!` is then below `2^30`.
pub const FACTORIAL_BOUND: u64 = 16777216;

/// Whether every exponent of `s` is at most `b`.
pub open spec fn exps_bounded(s: Seq<u32>, b: int) -> bool {
    forall|i: int| 0 <= i < s.len() ==> #[trigger] s[i] <= b
}

/// A growing table of factorial exponent vectors: row `m` is `m!`.
pub struct FactorialTable {
    rows: Vec<Vec<u32>>,
}

impl FactorialTable {
    /// The rows.
    pub closed spec fn rows_spec(&self) -> Seq<Seq<u32>> {
        self.rows@.map_values(|r: Vec<u32>| r@)
    }

    /// Row `m` is the trimmed exponent vector of `m!`, each exponent at most
    /// `64·m`.
    pub open spec fn wf(&self) -> bool {
        &&& self.rows_spec().len() >= 1
        &&& forall|m: int|
            0 <= m < self.rows_spec().len() ==> {
                &&& trimmed(#[trigger] self.rows_spec()[m])
                &&& pf_value(self.rows_spec()[m]) == factorial_spec(m as nat)
                &&& exps_bounded(self.rows_spec()[m], 64 * m)
                &&& support_le(self.rows_spec()[m], m)
            }
    }

    /// The table holding only `0! = 1`.
    pub fn new() -> (t: Self)
        ensures
            t.wf(),
            t.rows_spec().len() == 1,
    {
        let mut rows: Vec<Vec<u32>> = Vec::new();
        rows.push(Vec::new());
        let t = FactorialTable { rows };
        assert(t.rows_spec()[0] =~= Seq::<u32>::empty());
        t
    }

    /// Extend the table so row `n` exists, incrementally:
    /// `m! = (m-1)! · m` in exponent space.
    pub fn grow(&mut self, n: usize)
        requires
            old(self).wf(),
            n <= FACTORIAL_BOUND,
        ensures
            final(self).wf(),
            final(self).rows_spec().len() >= n + 1,
            final(self).rows_spec().len() >= old(self).rows_spec().len(),
            forall|m: int|
                0 <= m < old(self).rows_spec().len() ==> #[trigger] final(self).rows_spec()[m]
                    == old(self).rows_spec()[m],
    {
        while self.rows.len() <= n
            invariant
                self.wf(),
                n <= FACTORIAL_BOUND,
                self.rows_spec().len() >= old(self).rows_spec().len(),
                forall|m: int|
                    0 <= m < old(self).rows_spec().len() ==> #[trigger] self.rows_spec()[m]
                        == old(self).rows_spec()[m],
            decreases n + 1 - self.rows@.len(),
        {
            let m = self.rows.len();
            let ghost prev = self.rows_spec()[m - 1];
            let fm = primefactor_powers(m as u64);
            let mut next = Pf::from_powers(copy_exps(self.rows[m - 1].as_slice()));
            proof {
                assert(self.rows@[m - 1]@ == prev);
                lemma_trim_trimmed(prev);
                assert forall|i: int| 0 <= i < max_len(prev.len(), fm@.len()) implies exp_at(prev, i)
                    + exp_at(fm@, i) <= u32::MAX by {
                    if 0 <= i < prev.len() {
                        assert(prev[i] <= 64 * (m - 1));
                    }
                }
            }
            next.mul_by_powers(fm.as_slice());
            proof {
                lemma_pf_value_add(prev, fm@);
                assert(factorial_spec(m as nat) == m * factorial_spec((m - 1) as nat));
                assert(factorial_spec((m - 1) as nat) * m == m * factorial_spec((m - 1) as nat))
                    by (nonlinear_arith);
                lemma_support_le_value(fm@);
                assert(support_le(prev, (m - 1) as int));
                if prev.len() >= fm@.len() {
                    lemma_support_mono(prev, next.powers_spec(), (m - 1) as int);
                } else {
                    lemma_support_mono(fm@, next.powers_spec(), m as int);
                }
                assert forall|i: int| 0 <= i < next.powers_spec().len() implies #[trigger] next.powers_spec()[i]
                    <= 64 * m by {
                    if 0 <= i < prev.len() {
                        assert(prev[i] <= 64 * (m - 1));
                    }
                    assert(exp_at(fm@, i) < 64);
                }
            }
            let row = copy_exps(next.powers());
            let ghost before = self.rows_spec();
            self.rows.push(row);
            proof {
                assert(self.rows_spec() =~= before.push(row@));
            }
        }
    }

    /// Row `n`: the exponent vector of `n!`.
    pub fn row(&self, n: usize) -> (r: &[u32])
        requires
            self.wf(),
            n < self.rows_spec().len(),
        ensures
            r@ == self.rows_spec()[n as int],
            trimmed(r@),
            pf_value(r@) == factorial_spec(n as nat),
            exps_bounded(r@, 64 * n),
            support_le(r@, n as int),
    {
        assert(self.rows@[n as int]@ == self.rows_spec()[n as int]);
        self.rows[n].as_slice()
    }
}

proof fn lemma_trim_trimmed(s: Seq<u32>)
    requires
        trimmed(s),
    ensures
        trim_spec(s) == s,
{
}

/// A copy of an exponent vector.
fn copy_exps(a: &[u32]) -> (v: Vec<u32>)
    ensures
        v@ == a@,
{
    let mut v: Vec<u32> = Vec::new();
    let mut i: usize = 0;
    while i < a.len()
        invariant
            i <= a@.len(),
            v@ == a@.subrange(0, i as int),
        decreases a@.len() - i,
    {
        v.push(a[i]);
        i = i + 1;
    }
    assert(a@.subrange(0, a@.len() as int) =~= a@);
    v
}

/// Multiply `acc` by `n!` in place.
pub fn mul_factorial(acc: &mut Pf, n: u64)
    requires
        old(acc).wf(),
        n <= FACTORIAL_BOUND,
        exps_bounded(old(acc).powers_spec(), u32::MAX - 64 * n),
    ensures
        final(acc).wf(),
        final(acc).sign_spec() == old(acc).sign_spec(),
        final(acc).value() == old(acc).value() * factorial_spec(n as nat),
        forall|b: int|
            n <= b && #[trigger] support_le(old(acc).powers_spec(), b) ==> support_le(
                final(acc).powers_spec(),
                b,
            ),
        forall|b: int|
            0 <= b && #[trigger] exps_bounded(old(acc).powers_spec(), b) ==> exps_bounded(
                final(acc).powers_spec(),
                b + 64 * n,
            ),
{
    let mut table = FactorialTable::new();
    table.grow(n as usize);
    let row = table.row(n as usize);
    proof {
        assert forall|i: int| 0 <= i < max_len(acc.powers_spec().len(), row@.len()) implies exp_at(
            acc.powers_spec(),
            i,
        ) + exp_at(row@, i) <= u32::MAX by {
            if 0 <= i < acc.powers_spec().len() {
                assert(acc.powers_spec()[i] <= u32::MAX - 64 * n);
            }
            if 0 <= i < row@.len() {
                assert(row@[i] <= 64 * n);
            }
        }
        lemma_pf_value_add(acc.powers_spec(), row@);
    }
    let ghost before = *acc;
    acc.mul_by_powers(row);
    proof {
        assert forall|b: int| 0 <= b && #[trigger] exps_bounded(before.powers_spec(), b) implies exps_bounded(
            acc.powers_spec(),
            b + 64 * n,
        ) by {
            if before.sign_spec() != 0 {
                let a = before.powers_spec();
                assert forall|i: int| 0 <= i < acc.powers_spec().len() implies #[trigger] acc.powers_spec()[i]
                    <= b + 64 * n by {
                    assert(acc.powers_spec()[i] == exp_at(a, i) + exp_at(row@, i));
                    if i < a.len() {
                        assert(a[i] <= b);
                    }
                    if i < row@.len() {
                        assert(row@[i] <= 64 * n);
                    }
                }
            }
        }
        assert forall|b: int| n <= b && #[trigger] support_le(before.powers_spec(), b) implies support_le(
            acc.powers_spec(),
            b,
        ) by {
            if before.sign_spec() != 0 {
                lemma_support_mono(row@, row@, n as int);
                if before.powers_spec().len() >= row@.len() {
                    lemma_support_mono(before.powers_spec(), acc.powers_spec(), b);
                } else {
                    lemma_support_mono(row@, acc.powers_spec(), n as int);
                }
            }
        }
        let s = before.sign_spec() as int;
        let a = pf_value(before.powers_spec());
        let f = factorial_spec(n as nat) as int;
        if before.sign_spec() != 0 {
            assert(s * (a * f) == (s * a) * f) by (nonlinear_arith);
        } else {
            assert(0 * a == 0);
        }
    }
}

/// `n!` as a fresh prime factorization.
pub fn factorial(n: u64) -> (p: Pf)
    requires
        n <= FACTORIAL_BOUND,
    ensures
        p.wf(),
        p.sign_spec() == 1,
        pf_value(p.powers_spec()) == factorial_spec(n as nat),
        support_le(p.powers_spec(), n as int),
        exps_bounded(p.powers_spec(), 64 * n),
{
    let mut p = Pf::one();
    proof {
        assert(pf_value(p.powers_spec()) == 1);
        assert(p.value() == 1);
        assert(exps_bounded(p.powers_spec(), u32::MAX - 64 * n));
        assert(support_le(p.powers_spec(), n as int));
        assert(exps_bounded(p.powers_spec(), 0));
    }
    mul_factorial(&mut p, n);
    assert(p.value() == factorial_spec(n as nat));
    assert(p.value() == pf_value(p.powers_spec()));
    p
}


// ---- sums of prime-factorized fractions --------------------------------------------

/// Half the exponent range: the exponent-wise sum of two vectors bounded by
/// it still fits in `u32`.
pub const HALF_EXP: u32 = 2147483647;

/// `b` divides `a` exponent-wise: no longer, and no exponent larger.
pub open spec fn exps_le(b: Seq<u32>, a: Seq<u32>) -> bool {
    &&& b.len() <= a.len()
    &&& forall|i: int| 0 <= i < b.len() ==> #[trigger] b[i] <= a[i]
}

/// The fraction `Σ_{i<k} n_i / d_i`, accumulated pairwise as
/// `(N, D) ↦ (N·d + n·D, D·d)`.
pub open spec fn series_upto(t: Seq<(int, int)>, k: nat) -> (int, int)
    decreases k,
{
    if k == 0 {
        (0, 1)
    } else {
        let (x, y) = series_upto(t, (k - 1) as nat);
        let (a, b) = t[k - 1];
        (x * b + a * y, y * b)
    }
}

/// The fraction `Σ n_i / d_i` over all of `t`.
pub open spec fn series_frac(t: Seq<(int, int)>) -> (int, int) {
    series_upto(t, t.len())
}

/// The `(numerator, denominator)` values of prime-factorized terms.
pub open spec fn term_values(t: Seq<(Pf, Pf)>) -> Seq<(int, int)> {
    Seq::new(t.len(), |i: int| (t[i].0.value(), t[i].1.value()))
}

/// `Σ_{i<k} s_i`.
pub open spec fn sum_upto(s: Seq<int>, k: nat) -> int
    decreases k,
{
    if k == 0 {
        0
    } else {
        sum_upto(s, (k - 1) as nat) + s[k - 1]
    }
}

/// A term `n/d` that [`sum_series`] accepts: canonical factorizations, a
/// non-zero denominator, exponents within [`HALF_EXP`], and primes that fit
/// in `u64`.
pub open spec fn series_term_ok(t: (Pf, Pf)) -> bool {
    &&& t.0.wf()
    &&& t.1.wf()
    &&& t.1.sign_spec() != 0
    &&& exps_bounded(t.0.powers_spec(), HALF_EXP as int)
    &&& exps_bounded(t.1.powers_spec(), HALF_EXP as int)
    &&& support_le(t.0.powers_spec(), u64::MAX as int)
    &&& support_le(t.1.powers_spec(), u64::MAX as int)
}

proof fn lemma_zero_value(p: Pf)
    requires
        p.sign_spec() == 0,
    ensures
        p.value() == 0,
{
    assert(0 * pf_value(p.powers_spec()) == 0);
}

proof fn lemma_exps_le_trans(a: Seq<u32>, b: Seq<u32>, c: Seq<u32>)
    requires
        exps_le(a, b),
        exps_le(b, c),
    ensures
        exps_le(a, c),
{
    assert forall|i: int| 0 <= i < a.len() implies #[trigger] a[i] <= c[i] by {
        assert(a[i] <= b[i]);
        assert(b[i] <= c[i]);
    }
}

proof fn lemma_exps_max_le(a: Seq<u32>, b: Seq<u32>)
    ensures
        exps_le(a, exps_max(a, b)),
        exps_le(b, exps_max(a, b)),
{
    let m = exps_max(a, b);
    assert forall|i: int| 0 <= i < a.len() implies #[trigger] a[i] <= m[i] by {
        assert(exp_at(a, i) == a[i]);
    }
    assert forall|i: int| 0 <= i < b.len() implies #[trigger] b[i] <= m[i] by {
        assert(exp_at(b, i) == b[i]);
    }
}

proof fn lemma_gcd_le(a: Seq<u32>, b: Seq<u32>)
    ensures
        exps_le(trim_spec(exps_min(a, b)), a),
        exps_le(trim_spec(exps_min(a, b)), b),
{
    let m = exps_min(a, b);
    lemma_trim_len(m);
    let g = trim_spec(m);
    assert forall|i: int| 0 <= i < g.len() implies #[trigger] g[i] <= a[i] by {
        assert(g[i] == m[i]);
    }
    assert forall|i: int| 0 <= i < g.len() implies #[trigger] g[i] <= b[i] by {
        assert(g[i] == m[i]);
    }
}

/// A divisor of `den` divides `num · den`.
proof fn lemma_exps_le_add(d: Seq<u32>, den: Seq<u32>, num: Seq<u32>)
    requires
        exps_le(d, den),
        exps_add_fits(num, den),
    ensures
        exps_le(d, exps_add(num, den)),
{
    let s = exps_add(num, den);
    assert forall|i: int| 0 <= i < d.len() implies #[trigger] d[i] <= s[i] by {
        assert(exp_at(den, i) == den[i]);
        assert(d[i] <= den[i]);
    }
}

/// Rescaling every term to the common denominator `l` gives the same sum.
proof fn lemma_series_scaled(t: Seq<(int, int)>, sv: Seq<int>, l: int, k: nat)
    requires
        k <= t.len(),
        sv.len() == t.len(),
        forall|j: int| 0 <= j < t.len() ==> (#[trigger] t[j]).1 != 0,
        forall|j: int| 0 <= j < t.len() ==> #[trigger] sv[j] * t[j].1 == t[j].0 * l,
    ensures
        series_upto(t, k).1 != 0,
        series_upto(t, k).0 * l == sum_upto(sv, k) * series_upto(t, k).1,
    decreases k,
{
    if k == 0 {
        let (x0, y0) = series_upto(t, 0);
        assert(x0 == 0 && y0 == 1);
        assert(sum_upto(sv, 0) == 0);
        assert(x0 * l == 0 * y0) by (nonlinear_arith)
            requires
                x0 == 0,
                y0 == 1,
        ;
    } else {
        lemma_series_scaled(t, sv, l, (k - 1) as nat);
        let (x, y) = series_upto(t, (k - 1) as nat);
        let (a, b) = t[k - 1];
        let s = sum_upto(sv, (k - 1) as nat);
        let v = sv[k - 1];
        assert(series_upto(t, k) == (x * b + a * y, y * b));
        assert(sum_upto(sv, k) == s + v);
        assert(b != 0);
        assert(v * b == a * l);
        assert(x * b * l == s * y * b) by (nonlinear_arith)
            requires
                x * l == s * y,
        ;
        assert(a * y * l == v * b * y) by (nonlinear_arith)
            requires
                v * b == a * l,
        ;
        assert((x * b + a * y) * l == x * b * l + a * y * l) by (nonlinear_arith);
        assert((s + v) * (y * b) == s * y * b + v * b * y) by (nonlinear_arith);
        assert((x * b + a * y) * l == (s + v) * (y * b));
        assert(series_upto(t, k).0 * l == sum_upto(sv, k) * series_upto(t, k).1);
        assert(y * b != 0) by (nonlinear_arith)
            requires
                y != 0,
                b != 0,
        ;
    }
}

/// `(x·b)·(q·d) = (x·q)·(b·d)`.
proof fn lemma_mul_swap4(x: int, b: int, q: int, d: int)
    ensures
        (x * b) * (q * d) == (x * q) * (b * d),
        (x * b) * (q * d) == (x * q) * (d * b),
{
    assert((x * b) * (q * d) == (x * q) * (b * d)) by (nonlinear_arith);
    assert((b * d) == (d * b)) by (nonlinear_arith);
}

/// Sums of termwise equal fractions are equal.
pub proof fn lemma_series_congruent(t: Seq<(int, int)>, u: Seq<(int, int)>, k: nat)
    requires
        k <= t.len(),
        t.len() == u.len(),
        forall|j: int| 0 <= j < t.len() ==> (#[trigger] t[j]).1 != 0,
        forall|j: int| 0 <= j < u.len() ==> (#[trigger] u[j]).1 != 0,
        forall|j: int| 0 <= j < t.len() ==> frac_eq(t[j].0, t[j].1, #[trigger] u[j].0, u[j].1),
    ensures
        series_upto(t, k).1 != 0,
        series_upto(u, k).1 != 0,
        frac_eq(series_upto(t, k).0, series_upto(t, k).1, series_upto(u, k).0, series_upto(u, k).1),
    decreases k,
{
    if k == 0 {
        let (x0, y0) = series_upto(t, 0);
        let (p0, q0) = series_upto(u, 0);
        assert(x0 == 0 && y0 == 1 && p0 == 0 && q0 == 1);
        assert(x0 * q0 == p0 * y0) by (nonlinear_arith)
            requires
                x0 == 0,
                p0 == 0,
        ;
    } else {
        lemma_series_congruent(t, u, (k - 1) as nat);
        let (x, y) = series_upto(t, (k - 1) as nat);
        let (a, b) = t[k - 1];
        let (p, q) = series_upto(u, (k - 1) as nat);
        let (c, d) = u[k - 1];
        assert(b != 0 && d != 0);
        assert(frac_eq(a, b, c, d));
        assert(series_upto(t, k) == (x * b + a * y, y * b));
        assert(series_upto(u, k) == (p * d + c * q, q * d));
        vstd::arithmetic::mul::lemma_mul_is_distributive_add_other_way(q * d, x * b, a * y);
        vstd::arithmetic::mul::lemma_mul_is_distributive_add_other_way(y * b, p * d, c * q);
        lemma_mul_swap4(x, b, q, d);
        lemma_mul_swap4(a, y, d, q);
        lemma_mul_swap4(p, d, y, b);
        lemma_mul_swap4(c, q, b, y);
        assert((x * b + a * y) * (q * d) == (x * q) * (b * d) + (a * d) * (y * q));
        assert((p * d + c * q) * (y * b) == (p * y) * (b * d) + (c * b) * (y * q));
        assert((x * b + a * y) * (q * d) == (p * d + c * q) * (y * b));
        assert(y * b != 0) by (nonlinear_arith)
            requires
                y != 0,
                b != 0,
        ;
        assert(q * d != 0) by (nonlinear_arith)
            requires
                q != 0,
                d != 0,
        ;
    }
}

/// A sum of fractions with positive denominators has a positive denominator.
pub proof fn lemma_series_den_pos(t: Seq<(int, int)>, k: nat)
    requires
        k <= t.len(),
        forall|j: int| 0 <= j < t.len() ==> (#[trigger] t[j]).1 > 0,
    ensures
        series_upto(t, k).1 > 0,
    decreases k,
{
    if k > 0 {
        lemma_series_den_pos(t, (k - 1) as nat);
        let (x, y) = series_upto(t, (k - 1) as nat);
        let (a, b) = t[k - 1];
        assert(b > 0);
        assert(series_upto(t, k).1 == y * b);
        assert(y * b > 0) by (nonlinear_arith)
            requires
                y > 0,
                b > 0,
        ;
    }
}

/// `a/b = s/l` and `x/y = s/l` (with `l ≠ 0`) give `a/b = x/y`.
proof fn lemma_frac_cancel(a: int, b: int, x: int, y: int, s: int, l: int)
    requires
        l != 0,
        a * l == s * b,
        x * l == s * y,
    ensures
        a * y == x * b,
{
    assert((a * y - x * b) * l == 0) by (nonlinear_arith)
        requires
            a * l == s * b,
            x * l == s * y,
    ;
    assert(a * y - x * b == 0) by (nonlinear_arith)
        requires
            (a * y - x * b) * l == 0,
            l != 0,
    ;
}

/// `Σ n_i / d_i` as an exact rational.
///
/// All denominators are brought to their lcm (exponent-wise maximum), each
/// numerator is rescaled in exponent space, the gcd of the rescaled
/// numerators is pulled out, and only then are the numerators multiplied out
/// as big integers and summed.
pub fn sum_series(terms: Vec<(Pf, Pf)>) -> (r: Ratio<BigInt>)
    requires
        forall|i: int| 0 <= i < terms@.len() ==> series_term_ok(#[trigger] terms@[i]),
    ensures
        ratio_wf(r),
        frac_eq(
            ratio_numer(r),
            ratio_denom(r),
            series_frac(term_values(terms@)).0,
            series_frac(term_values(terms@)).1,
        ),
{
    let n = terms.len();
    if n == 0 {
        return ratio_zero();
    }
    let ghost t = term_values(terms@);
    // Common denominator: the lcm of all denominators.
    let mut den = terms[0].1.clone();
    let mut i: usize = 1;
    while i < n
        invariant
            n == terms@.len(),
            1 <= i <= n,
            forall|j: int| 0 <= j < n ==> series_term_ok(#[trigger] terms@[j]),
            den.wf(),
            den.sign_spec() != 0,
            exps_bounded(den.powers_spec(), HALF_EXP as int),
            support_le(den.powers_spec(), u64::MAX as int),
            forall|j: int| 0 <= j < i ==> exps_le((#[trigger] terms@[j]).1.powers_spec(), den.powers_spec()),
        decreases n - i,
    {
        let ghost before = den.powers_spec();
        let ghost other = terms@[i as int].1.powers_spec();
        den.lcm_assign(&terms[i].1);
        proof {
            lemma_exps_max_le(before, other);
            assert forall|j: int| 0 <= j < i + 1 implies exps_le(
                (#[trigger] terms@[j]).1.powers_spec(),
                den.powers_spec(),
            ) by {
                if j < i {
                    lemma_exps_le_trans(terms@[j].1.powers_spec(), before, den.powers_spec());
                }
            }
            if before.len() >= other.len() {
                lemma_support_mono(before, den.powers_spec(), u64::MAX as int);
            } else {
                lemma_support_mono(other, den.powers_spec(), u64::MAX as int);
            }
            assert forall|k: int| 0 <= k < den.powers_spec().len() implies #[trigger] den.powers_spec()[k]
                <= HALF_EXP by {
                if k < before.len() {
                    assert(before[k] <= HALF_EXP);
                }
                if k < other.len() {
                    assert(other[k] <= HALF_EXP);
                }
            }
        }
        i = i + 1;
    }
    // Rescale every numerator to the common denominator.
    let mut scaled: Vec<Pf> = Vec::new();
    let mut i: usize = 0;
    while i < n
        invariant
            n == terms@.len(),
            i <= n,
            t == term_values(terms@),
            forall|j: int| 0 <= j < n ==> series_term_ok(#[trigger] terms@[j]),
            den.wf(),
            den.sign_spec() != 0,
            exps_bounded(den.powers_spec(), HALF_EXP as int),
            support_le(den.powers_spec(), u64::MAX as int),
            forall|j: int| 0 <= j < n ==> exps_le((#[trigger] terms@[j]).1.powers_spec(), den.powers_spec()),
            scaled@.len() == i,
            forall|j: int|
                0 <= j < i ==> {
                    &&& (#[trigger] scaled@[j]).wf()
                    &&& support_le(scaled@[j].powers_spec(), u64::MAX as int)
                    &&& scaled@[j].value() * t[j].1 == t[j].0 * den.value()
                },
        decreases n - i,
    {
        let mut q = terms[i].0.clone();
        let ghost num = terms@[i as int].0;
        let ghost d = terms@[i as int].1;
        proof {
            assert(series_term_ok(terms@[i as int]));
            assert forall|k: int| 0 <= k < max_len(num.powers_spec().len(), den.powers_spec().len()) implies exp_at(
                num.powers_spec(),
                k,
            ) + exp_at(den.powers_spec(), k) <= u32::MAX by {
                if k < num.powers_spec().len() {
                    assert(num.powers_spec()[k] <= HALF_EXP);
                }
                if k < den.powers_spec().len() {
                    assert(den.powers_spec()[k] <= HALF_EXP);
                }
            }
        }
        q.mul_assign(&den);
        proof {
            if num.sign_spec() != 0 {
                lemma_exps_le_add(d.powers_spec(), den.powers_spec(), num.powers_spec());
            } else {
                assert(q.sign_spec() == 0 * den.sign_spec());
            }
        }
        let ghost q1 = q;
        q.divexact_assign(&terms[i].1);
        proof {
            if num.powers_spec().len() >= den.powers_spec().len() {
                lemma_support_mono(num.powers_spec(), q.powers_spec(), u64::MAX as int);
            } else {
                lemma_support_mono(den.powers_spec(), q.powers_spec(), u64::MAX as int);
            }
            assert(t[i as int] == (num.value(), d.value()));
        }
        scaled.push(q);
        i = i + 1;
    }
    // Pull the gcd of the rescaled numerators out.
    let mut g = scaled[0].clone();
    let mut i: usize = 1;
    while i < n
        invariant
            n == scaled@.len(),
            1 <= i <= n,
            forall|j: int|
                0 <= j < n ==> (#[trigger] scaled@[j]).wf() && support_le(
                    scaled@[j].powers_spec(),
                    u64::MAX as int,
                ),
            g.wf(),
            support_le(g.powers_spec(), u64::MAX as int),
            g.sign_spec() == 0 ==> i == 1 && scaled@[0].sign_spec() == 0,
            forall|j: int|
                0 <= j < i && (#[trigger] scaled@[j]).sign_spec() != 0 ==> exps_le(
                    g.powers_spec(),
                    scaled@[j].powers_spec(),
                ),
        decreases n - i,
    {
        let ghost before = g.powers_spec();
        let ghost other = scaled@[i as int].powers_spec();
        g.gcd_assign(&scaled[i]);
        proof {
            lemma_gcd_le(before, other);
            lemma_support_mono(before, g.powers_spec(), u64::MAX as int);
            assert forall|j: int|
                0 <= j < i + 1 && (#[trigger] scaled@[j]).sign_spec() != 0 implies exps_le(
                g.powers_spec(),
                scaled@[j].powers_spec(),
            ) by {
                if j < i {
                    lemma_exps_le_trans(g.powers_spec(), before, scaled@[j].powers_spec());
                }
            }
        }
        i = i + 1;
    }
    let ghost sv = Seq::new(n as nat, |j: int| scaled@[j].value());
    // Sum the reduced numerators as big integers.
    let mut total = big_from_u64(0);
    let mut i: usize = 0;
    while i < n
        invariant
            n == scaled@.len(),
            i <= n,
            sv == Seq::new(n as nat, |j: int| scaled@[j].value()),
            forall|j: int|
                0 <= j < n ==> (#[trigger] scaled@[j]).wf() && support_le(
                    scaled@[j].powers_spec(),
                    u64::MAX as int,
                ),
            g.wf(),
            g.sign_spec() == 0 ==> n == 1 && scaled@[0].sign_spec() == 0,
            forall|j: int|
                0 <= j < n && (#[trigger] scaled@[j]).sign_spec() != 0 ==> exps_le(
                    g.powers_spec(),
                    scaled@[j].powers_spec(),
                ),
            g.sign_spec() != 0 ==> bigint_value(total) * g.value() == sum_upto(sv, i as nat),
            g.sign_spec() == 0 ==> bigint_value(total) == 0,
        decreases n - i,
    {
        let mut q = scaled[i].clone();
        if !g.is_zero() {
            q.divexact_assign(&g);
        }
        proof {
            lemma_support_mono(scaled@[i as int].powers_spec(), q.powers_spec(), u64::MAX as int);
        }
        let qb = q.to_bigint();
        let ghost prev = bigint_value(total);
        total = big_add(&total, &qb);
        proof {
            if g.sign_spec() != 0 {
                assert(q.value() * g.value() == sv[i as int]);
                let gv = g.value();
                assert((prev + q.value()) * gv == prev * gv + q.value() * gv) by (nonlinear_arith);
            } else {
                lemma_zero_value(scaled@[0]);
            }
        }
        i = i + 1;
    }
    let gb = g.to_bigint();
    let total = big_mul(&total, &gb);
    let db = den.to_bigint();
    proof {
        lemma_pf_value_pos(den.powers_spec());
        assert(den.value() != 0) by (nonlinear_arith)
            requires
                den.value() == den.sign_spec() * pf_value(den.powers_spec()),
                den.sign_spec() != 0,
                pf_value(den.powers_spec()) >= 1,
        ;
        if g.sign_spec() == 0 {
            lemma_zero_value(scaled@[0]);
            assert(sv[0] == 0);
            assert(sum_upto(sv, 0) == 0);
            assert(sum_upto(sv, 1) == sum_upto(sv, 0) + sv[0]);
        }
        assert(bigint_value(total) == sum_upto(sv, n as nat));
        assert forall|j: int| 0 <= j < t.len() implies (#[trigger] t[j]).1 != 0 by {
            assert(series_term_ok(terms@[j]));
            lemma_pf_value_pos(terms@[j].1.powers_spec());
            assert(t[j].1 == terms@[j].1.sign_spec() * pf_value(terms@[j].1.powers_spec()));
            assert(t[j].1 != 0) by (nonlinear_arith)
                requires
                    t[j].1 == terms@[j].1.sign_spec() * pf_value(terms@[j].1.powers_spec()),
                    terms@[j].1.sign_spec() != 0,
                    pf_value(terms@[j].1.powers_spec()) >= 1,
            ;
        }
        assert forall|j: int| 0 <= j < t.len() implies #[trigger] sv[j] * t[j].1 == t[j].0 * den.value() by {
            assert(scaled@[j].value() * t[j].1 == t[j].0 * den.value());
        }
        lemma_series_scaled(t, sv, den.value(), t.len());
    }
    let r = ratio_new(total, db);
    proof {
        let (x, y) = series_frac(t);
        lemma_frac_cancel(ratio_numer(r), ratio_denom(r), x, y, sum_upto(sv, n as nat), den.value());
    }
    r
}

} // verus!

