use vstd::prelude::*;
use vstd::arithmetic::power2::{
    lemma2_to64, lemma2_to64_rest, lemma_pow2_pos, lemma_pow2_strictly_increases, lemma_pow2_unfold,
    pow2,
};
use vstd::std_specs::bits::{axiom_u64_leading_zeros, u64_leading_zeros};

verus! {

/// Number of buckets of a latency histogram: bucket `k` covers latencies
/// whose highest set bit is bit `k - 1`.
pub const NUM_BUCKETS: usize = 64;

// ─── bucket of a latency ─────────────────────────────────────────────────────

/// The bucket of a latency of `nanos` nanoseconds, as a relation: bucket 0
/// holds 0 only; bucket `k >= 1` holds `2^(k-1) <= nanos < 2^k`, except
/// the last one, which holds everything from `2^62` on.
pub open spec fn in_bucket(nanos: u64, k: int) -> bool {
    &&& 0 <= k < NUM_BUCKETS
    &&& (nanos == 0 <==> k == 0)
    &&& k >= 1 ==> pow2((k - 1) as nat) <= nanos
    &&& (1 <= k < NUM_BUCKETS - 1) ==> nanos < pow2(k as nat)
}

/// `i` has `64 - leading_zeros(i)` significant bits.
proof fn lemma_bit_length(i: u64)
    requires
        i > 0,
    ensures
        1 <= 64 - u64_leading_zeros(i) <= 64,
        pow2((63 - u64_leading_zeros(i)) as nat) <= i,
        i < pow2((64 - u64_leading_zeros(i)) as nat),
    decreases i,
{
    axiom_u64_leading_zeros(i);
    reveal(u64_leading_zeros);
    if i == 1 {
        reveal_with_fuel(u64_leading_zeros, 2);
        lemma2_to64();
    } else {
        let h: u64 = i / 2;
        lemma_bit_length(h);
        let b = 64 - u64_leading_zeros(h);
        assert(u64_leading_zeros(i) == u64_leading_zeros(h) - 1);
        lemma_pow2_unfold(b as nat);
        lemma_pow2_unfold((b + 1) as nat);
    }
}

/// The bucket of a latency of `nanos` nanoseconds: 0 for 0, otherwise the
/// position of the highest set bit plus one, capped at the last bucket.
pub fn bucket_of(nanos: u64) -> (r: usize)
    ensures
        in_bucket(nanos, r as int),
{
    if nanos == 0 {
        return 0;
    }
    let lz: u32 = nanos.leading_zeros();
    proof {
        lemma_bit_length(nanos);
    }
    let idx: usize = 64 - lz as usize;
    if idx < 63 {
        idx
    } else {
        proof {
            lemma2_to64();
            lemma2_to64_rest();
            if idx == 64 {
                lemma_pow2_strictly_increases(62, 63);
            }
        }
        63
    }
}

/// Each latency has exactly one bucket.
pub proof fn lemma_bucket_unique(nanos: u64, j: int, k: int)
    requires
        in_bucket(nanos, j),
        in_bucket(nanos, k),
    ensures
        j == k,
{
    if j != 0 && k != 0 && j != k {
        if j < k {
            lemma_pow2_mono(j as nat, (k - 1) as nat);
        } else {
            lemma_pow2_mono(k as nat, (j - 1) as nat);
        }
    }
}

proof fn lemma_pow2_mono(a: nat, b: nat)
    requires
        a <= b,
    ensures
        pow2(a) <= pow2(b),
{
    if a < b {
        lemma_pow2_strictly_increases(a, b);
    }
}

// ─── snapshots ───────────────────────────────────────────────────────────────

/// Sum of the counts.
pub open spec fn spec_total(c: Seq<u64>) -> int
    decreases c.len(),
{
    if c.len() == 0 {
        0
    } else {
        spec_total(c.drop_last()) + c.last()
    }
}

/// The rank a fraction `numer / denom` of `total` measurements asks for:
/// `ceil(total * numer / denom)`, and at least 1.
pub open spec fn spec_target(total: int, numer: int, denom: int) -> int {
    let t = (total * numer + denom - 1) / denom;
    if t < 1 {
        1
    } else {
        t
    }
}

/// The first bucket from `i` on whose cumulative count reaches `target`,
/// or -1 when none does.
pub open spec fn spec_first_reaching(c: Seq<u64>, target: int, i: nat) -> int
    decreases c.len() - i,
{
    if i >= c.len() {
        -1
    } else if spec_total(c.take(i + 1 as int)) >= target {
        i as int
    } else {
        spec_first_reaching(c, target, i + 1)
    }
}

/// The upper bound `2^k` of the first bucket whose cumulative count reaches
/// `target`, or `u64::MAX` when none does.
pub open spec fn spec_bound_reaching(c: Seq<u64>, target: int) -> int {
    let k = spec_first_reaching(c, target, 0);
    if k < 0 {
        u64::MAX as int
    } else {
        pow2(k as nat) as int
    }
}

/// The `numer / denom` percentile of the counts, in nanoseconds: 0 when
/// there is no measurement, otherwise the upper bound of the bucket in
/// which the measurement of rank `ceil(total * numer / denom)` lies.
pub open spec fn spec_percentile(c: Seq<u64>, numer: int, denom: int) -> int {
    let total = spec_total(c);
    if total == 0 {
        0
    } else {
        spec_bound_reaching(c, spec_target(total, numer, denom))
    }
}

proof fn lemma_total_step(c: Seq<u64>, i: int)
    requires
        0 <= i < c.len(),
    ensures
        spec_total(c.take(i + 1)) == spec_total(c.take(i)) + c[i],
{
    assert(c.take(i + 1).drop_last() =~= c.take(i));
}

proof fn lemma_total_prefix(c: Seq<u64>, i: int)
    requires
        0 <= i <= c.len(),
    ensures
        0 <= spec_total(c.take(i)) <= spec_total(c),
    decreases c.len() - i,
{
    lemma_total_nonneg(c.take(i));
    if i < c.len() {
        lemma_total_step(c, i);
        lemma_total_prefix(c, i + 1);
    } else {
        assert(c.take(i) =~= c);
        lemma_total_nonneg(c);
    }
}

proof fn lemma_total_nonneg(c: Seq<u64>)
    ensures
        spec_total(c) >= 0,
    decreases c.len(),
{
    if c.len() > 0 {
        lemma_total_nonneg(c.drop_last());
    }
}

/// Immutable copy of a latency histogram's bucket counts.
#[derive(Debug, Clone)]
pub struct HistogramSnapshot {
    counts: [u64; 64],
}

impl View for HistogramSnapshot {
    type V = Seq<u64>;

    closed spec fn view(&self) -> Seq<u64> {
        self.counts@
    }
}

impl HistogramSnapshot {
    /// A snapshot holding the given bucket counts.
    pub fn from_counts(counts: [u64; 64]) -> (r: Self)
        ensures
            r@ == counts@,
    {
        HistogramSnapshot { counts }
    }

    /// The bucket counts, bucket 0 first.
    pub fn counts(&self) -> (r: &[u64])
        ensures
            r@ == self@,
            r@.len() == NUM_BUCKETS,
    {
        self.counts.as_slice()
    }

    /// Total number of measurements; the total must fit in a `u64`.
    pub fn count(&self) -> (r: u64)
        requires
            spec_total(self@) <= u64::MAX,
        ensures
            r == spec_total(self@),
    {
        let ghost c = self@;
        let mut sum: u64 = 0;
        let mut i: usize = 0;
        while i < 64
            invariant
                i <= 64,
                c == self@,
                c.len() == 64,
                spec_total(c) <= u64::MAX,
                sum == spec_total(c.take(i as int)),
            decreases 64 - i,
        {
            proof {
                lemma_total_step(c, i as int);
                lemma_total_prefix(c, i as int + 1);
            }
            sum = sum + self.counts[i];
            i = i + 1;
        }
        assert(c.take(64) =~= c);
        sum
    }

    /// The upper bound `2^k` of the first bucket `k` whose cumulative count
    /// reaches `target`, or `u64::MAX` when none does.
    pub fn upper_bound_reaching(&self, target: u128) -> (r: u64)
        requires
            spec_total(self@) <= u64::MAX,
        ensures
            r == spec_bound_reaching(self@, target as int),
    {
        let ghost c = self@;
        let mut cumulative: u64 = 0;
        let mut bound: u64 = 1;
        let mut i: usize = 0;
        proof {
            lemma2_to64();
            lemma2_to64_rest();
        }
        while i < 64
            invariant
                i <= 64,
                c == self@,
                c.len() == 64,
                spec_total(c) <= u64::MAX,
                cumulative == spec_total(c.take(i as int)),
                i < 64 ==> bound == pow2(i as nat),
                pow2(63) == 0x8000000000000000,
                spec_first_reaching(c, target as int, 0) == spec_first_reaching(c, target as int, i as nat),
            decreases 64 - i,
        {
            proof {
                lemma_total_step(c, i as int);
                lemma_total_prefix(c, i as int + 1);
            }
            cumulative = cumulative + self.counts[i];
            if cumulative as u128 >= target {
                return bound;
            }
            if i < 63 {
                proof {
                    lemma_pow2_unfold((i + 1) as nat);
                    lemma_pow2_mono((i + 1) as nat, 63);
                }
                bound = bound * 2;
            }
            i = i + 1;
        }
        u64::MAX
    }

    /// The `numer / denom` percentile in nanoseconds: the upper bound of the
    /// bucket holding the measurement of rank `ceil(total * numer / denom)`
    /// (at least 1), or 0 when there is no measurement.
    pub fn percentile_ratio(&self, numer: u64, denom: u64) -> (r: u64)
        requires
            denom > 0,
            spec_total(self@) <= u64::MAX,
        ensures
            r == spec_percentile(self@, numer as int, denom as int),
    {
        let total = self.count();
        if total == 0 {
            return 0;
        }
        assert(total * numer <= 0xffff_ffff_ffff_ffff * 0xffff_ffff_ffff_ffff) by (nonlinear_arith)
            requires
                total <= 0xffff_ffff_ffff_ffffu64,
                numer <= 0xffff_ffff_ffff_ffffu64,
        ;
        let product: u128 = total as u128 * numer as u128;
        let rounded: u128 = (product + (denom as u128 - 1)) / denom as u128;
        let target: u128 = if rounded < 1 { 1 } else { rounded };
        self.upper_bound_reaching(target)
    }

    /// Median (p50) in nanoseconds.
    pub fn p50(&self) -> (r: u64)
        requires
            spec_total(self@) <= u64::MAX,
        ensures
            r == spec_percentile(self@, 50, 100),
    {
        self.percentile_ratio(50, 100)
    }

    /// p90 in nanoseconds.
    pub fn p90(&self) -> (r: u64)
        requires
            spec_total(self@) <= u64::MAX,
        ensures
            r == spec_percentile(self@, 90, 100),
    {
        self.percentile_ratio(90, 100)
    }

    /// p99 in nanoseconds.
    pub fn p99(&self) -> (r: u64)
        requires
            spec_total(self@) <= u64::MAX,
        ensures
            r == spec_percentile(self@, 99, 100),
    {
        self.percentile_ratio(99, 100)
    }
}

// ─── laws of percentiles ─────────────────────────────────────────────────────

/// The rank asked for grows with the fraction.
proof fn lemma_target_monotone(total: int, n1: int, d1: int, n2: int, d2: int)
    requires
        total >= 0,
        n1 >= 0,
        n2 >= 0,
        d1 > 0,
        d2 > 0,
        n1 * d2 <= n2 * d1,
    ensures
        spec_target(total, n1, d1) <= spec_target(total, n2, d2),
{
    let a = total * n1;
    let b = total * n2;
    let x1 = (a + d1 - 1) / d1;
    let x2 = (b + d2 - 1) / d2;
    assert(a * d2 <= b * d1) by (nonlinear_arith)
        requires
            a == total * n1,
            b == total * n2,
            total >= 0,
            n1 * d2 <= n2 * d1,
    ;
    assert(x1 * d1 < a + d1) by (nonlinear_arith)
        requires
            x1 == (a + d1 - 1) / d1,
            d1 > 0,
    ;
    assert(x2 * d2 >= b) by (nonlinear_arith)
        requires
            x2 == (b + d2 - 1) / d2,
            d2 > 0,
    ;
    assert(a <= x2 * d1) by (nonlinear_arith)
        requires
            a * d2 <= b * d1,
            x2 * d2 >= b,
            d1 > 0,
            d2 > 0,
    ;
    assert(x1 <= x2) by (nonlinear_arith)
        requires
            x1 * d1 < a + d1,
            a <= x2 * d1,
            d1 > 0,
    ;
}

/// The first bucket reaching a rank lies at or after where the search starts.
proof fn lemma_first_reaching_from(c: Seq<u64>, t: int, i: nat)
    ensures
        spec_first_reaching(c, t, i) == -1 || (i <= spec_first_reaching(c, t, i) < c.len()),
    decreases c.len() - i,
{
    if i < c.len() && spec_total(c.take(i + 1 as int)) < t {
        lemma_first_reaching_from(c, t, i + 1);
    }
}

/// A higher rank is reached no earlier.
proof fn lemma_first_reaching_monotone(c: Seq<u64>, t1: int, t2: int, i: nat)
    requires
        t1 <= t2,
    ensures
        spec_first_reaching(c, t2, i) == -1 || (spec_first_reaching(c, t1, i) != -1
            && spec_first_reaching(c, t1, i) <= spec_first_reaching(c, t2, i)),
    decreases c.len() - i,
{
    if i < c.len() {
        lemma_first_reaching_monotone(c, t1, t2, i + 1);
        lemma_first_reaching_from(c, t2, i + 1);
    }
}

/// A larger fraction never gives a smaller percentile: for fractions
/// `n1 / d1 <= n2 / d2`, the `n1 / d1` percentile is at most the `n2 / d2`
/// one (so p50 <= p90 <= p99).
pub proof fn lemma_percentile_monotone(s: HistogramSnapshot, n1: u64, d1: u64, n2: u64, d2: u64)
    requires
        d1 > 0,
        d2 > 0,
        n1 * d2 <= n2 * d1,
    ensures
        spec_percentile(s@, n1 as int, d1 as int) <= spec_percentile(s@, n2 as int, d2 as int),
{
    let c = s@;
    let total = spec_total(c);
    if total != 0 {
        lemma_total_nonneg(c);
        let t1 = spec_target(total, n1 as int, d1 as int);
        let t2 = spec_target(total, n2 as int, d2 as int);
        lemma_target_monotone(total, n1 as int, d1 as int, n2 as int, d2 as int);
        lemma_first_reaching_monotone(c, t1, t2, 0);
        lemma_first_reaching_from(c, t1, 0);
        lemma_first_reaching_from(c, t2, 0);
        let k1 = spec_first_reaching(c, t1, 0);
        let k2 = spec_first_reaching(c, t2, 0);
        lemma2_to64();
        lemma2_to64_rest();
        if k1 >= 0 {
            lemma_pow2_mono(k1 as nat, 63);
            if k2 >= 0 {
                lemma_pow2_mono(k1 as nat, k2 as nat);
            }
        }
    }
}

/// The percentiles the snapshot reports are ordered: p50 <= p90 <= p99.
pub proof fn lemma_p50_p90_p99_ordered(s: HistogramSnapshot)
    ensures
        spec_percentile(s@, 50, 100) <= spec_percentile(s@, 90, 100),
        spec_percentile(s@, 90, 100) <= spec_percentile(s@, 99, 100),
{
    lemma_percentile_monotone(s, 50, 100, 90, 100);
    lemma_percentile_monotone(s, 90, 100, 99, 100);
}

/// For a fraction in `[0, 1]` of a non-empty histogram, the percentile is
/// the upper bound `2^k` of a bucket that holds a measurement of the rank
/// asked for, never the `u64::MAX` of an unreached rank.
pub proof fn lemma_percentile_is_bucket_bound(s: HistogramSnapshot, numer: u64, denom: u64)
    requires
        denom > 0,
        numer <= denom,
        spec_total(s@) > 0,
    ensures
        exists|k: int|
            0 <= k < NUM_BUCKETS && spec_percentile(s@, numer as int, denom as int) == #[trigger] pow2(
                k as nat,
            ) && spec_total(s@.take(k + 1)) >= spec_target(spec_total(s@), numer as int, denom as int),
{
    let c = s@;
    let total = spec_total(c);
    let t = spec_target(total, numer as int, denom as int);
    assert(total * numer + denom - 1 < (total + 1) * denom) by (nonlinear_arith)
        requires
            numer <= denom,
            total > 0,
            denom > 0,
    ;
    assert((total * numer + denom - 1) / (denom as int) <= total) by (nonlinear_arith)
        requires
            total * numer + denom - 1 < (total + 1) * denom,
            denom > 0,
            total > 0,
    ;
    lemma_reaching_found(c, t, 0);
    let k = spec_first_reaching(c, t, 0);
    lemma_first_reaching_from(c, t, 0);
    lemma_first_reaching_hit(c, t, 0);
    assert(0 <= k < NUM_BUCKETS && spec_percentile(c, numer as int, denom as int) == pow2(k as nat)
        && spec_total(c.take(k + 1)) >= t);
}

/// A rank no larger than the total is reached by some bucket.
proof fn lemma_reaching_found(c: Seq<u64>, t: int, i: nat)
    requires
        i < c.len(),
        t <= spec_total(c),
    ensures
        spec_first_reaching(c, t, i) != -1,
    decreases c.len() - i,
{
    if spec_total(c.take(i + 1 as int)) < t {
        if i + 1 == c.len() {
            assert(c.take(i + 1 as int) =~= c);
        } else {
            lemma_reaching_found(c, t, i + 1);
        }
    }
}

/// The bucket found does reach the rank.
proof fn lemma_first_reaching_hit(c: Seq<u64>, t: int, i: nat)
    ensures
        spec_first_reaching(c, t, i) != -1 ==> spec_total(c.take(spec_first_reaching(c, t, i) + 1)) >= t,
    decreases c.len() - i,
{
    if i < c.len() && spec_total(c.take(i + 1 as int)) < t {
        lemma_first_reaching_hit(c, t, i + 1);
    }
}

// ─── percentiles of recorded values ──────────────────────────────────────────

/// The bucket of a latency (the one `in_bucket` holds it in).
pub open spec fn spec_bucket(nanos: u64) -> int {
    choose|k: int| in_bucket(nanos, k)
}

/// Every latency has a bucket.
proof fn lemma_bucket_exists(nanos: u64)
    ensures
        in_bucket(nanos, spec_bucket(nanos)),
{
    if nanos == 0 {
        assert(in_bucket(nanos, 0));
    } else {
        lemma_bit_length(nanos);
        let b = 64 - u64_leading_zeros(nanos);
        if b <= 63 {
            assert(in_bucket(nanos, b));
        } else {
            lemma2_to64();
            lemma2_to64_rest();
            lemma_pow2_mono(62, 63);
            assert(in_bucket(nanos, 63));
        }
    }
}

/// Larger latencies never land in lower buckets.
proof fn lemma_bucket_monotone(u: u64, v: u64)
    requires
        u <= v,
    ensures
        spec_bucket(u) <= spec_bucket(v),
{
    lemma_bucket_exists(u);
    lemma_bucket_exists(v);
    let a = spec_bucket(u);
    let b = spec_bucket(v);
    if a > b {
        lemma_pow2_mono(b as nat, (a - 1) as nat);
    }
}

/// How many of `vals` satisfy `p`.
pub open spec fn spec_count_where(vals: Seq<u64>, p: spec_fn(u64) -> bool) -> nat
    decreases vals.len(),
{
    if vals.len() == 0 {
        0
    } else {
        spec_count_where(vals.drop_last(), p) + if p(vals.last()) { 1nat } else { 0nat }
    }
}

/// The bucket counts of the recorded latencies `vals`.
pub open spec fn is_histogram_of(c: Seq<u64>, vals: Seq<u64>) -> bool {
    &&& c.len() == NUM_BUCKETS
    &&& forall|k: int| 0 <= k < NUM_BUCKETS ==> #[trigger] c[k] == spec_count_where(vals, |u: u64| spec_bucket(u) == k)
}

proof fn lemma_count_split(vals: Seq<u64>, p: spec_fn(u64) -> bool, q: spec_fn(u64) -> bool, r: spec_fn(u64) -> bool)
    requires
        forall|u: u64| #[trigger] r(u) == (p(u) || q(u)),
        forall|u: u64| !(#[trigger] p(u) && q(u)),
    ensures
        spec_count_where(vals, r) == spec_count_where(vals, p) + spec_count_where(vals, q),
    decreases vals.len(),
{
    if vals.len() > 0 {
        lemma_count_split(vals.drop_last(), p, q, r);
        assert(r(vals.last()) == (p(vals.last()) || q(vals.last())));
        assert(!(p(vals.last()) && q(vals.last())));
    }
}

proof fn lemma_count_monotone(vals: Seq<u64>, p: spec_fn(u64) -> bool, q: spec_fn(u64) -> bool)
    requires
        forall|u: u64| #[trigger] p(u) ==> q(u),
    ensures
        spec_count_where(vals, p) <= spec_count_where(vals, q),
    decreases vals.len(),
{
    if vals.len() > 0 {
        lemma_count_monotone(vals.drop_last(), p, q);
        assert(p(vals.last()) ==> q(vals.last()));
    }
}

proof fn lemma_count_all(vals: Seq<u64>, p: spec_fn(u64) -> bool)
    requires
        forall|u: u64| #[trigger] p(u),
    ensures
        spec_count_where(vals, p) == vals.len(),
    decreases vals.len(),
{
    if vals.len() > 0 {
        lemma_count_all(vals.drop_last(), p);
        assert(p(vals.last()));
    }
}

/// The cumulative count up to bucket `b` is the number of latencies in
/// buckets `0..=b`.
proof fn lemma_cumulative_count(c: Seq<u64>, vals: Seq<u64>, b: int)
    requires
        is_histogram_of(c, vals),
        0 <= b < NUM_BUCKETS,
    ensures
        spec_total(c.take(b + 1)) == spec_count_where(vals, |u: u64| spec_bucket(u) <= b),
    decreases b,
{
    lemma_total_step(c, b);
    let le = |u: u64| spec_bucket(u) <= b;
    let eq = |u: u64| spec_bucket(u) == b;
    if b == 0 {
        assert(c.take(0) =~= Seq::<u64>::empty());
        assert forall|u: u64| #[trigger] le(u) == eq(u) by {
            lemma_bucket_exists(u);
        }
        lemma_count_monotone(vals, le, eq);
        lemma_count_monotone(vals, eq, le);
    } else {
        lemma_cumulative_count(c, vals, b - 1);
        let below = |u: u64| spec_bucket(u) <= b - 1;
        lemma_count_split(vals, below, eq, le);
    }
}

/// The first bucket from `i` on reaching `t`, when none between `i` and
/// `k` does and `k` does, is `k`.
proof fn lemma_first_reaching_is(c: Seq<u64>, t: int, i: nat, k: int)
    requires
        i <= k < c.len(),
        spec_total(c.take(k + 1)) >= t,
        forall|j: int| i <= j < k ==> spec_total(#[trigger] c.take(j + 1)) < t,
    ensures
        spec_first_reaching(c, t, i) == k,
    decreases k - i,
{
    if i < k {
        lemma_first_reaching_is(c, t, i + 1, k);
    }
}

/// Of the latencies `vals` that a snapshot counts, the `numer / denom`
/// percentile is fixed by the recorded value `v` of the rank it asks for
/// (`rank = max(1, ceil(n * numer / denom))`, `n` the number of values: at
/// least `rank` values are at most `v`, fewer than `rank` are below it): the
/// result is the upper bound `2^k` of `v`'s bucket `k`; so it exceeds `v`
/// and is at most `2 * v` when `0 < v < 2^62`, and it is 1 for `v == 0`.
/// The snapshot's total is the number of values.
pub proof fn lemma_percentile_of_values(s: HistogramSnapshot, vals: Seq<u64>, numer: u64, denom: u64, v: u64)
    requires
        is_histogram_of(s@, vals),
        denom > 0,
        spec_count_where(vals, |u: u64| u <= v) >= spec_target(vals.len() as int, numer as int, denom as int),
        spec_count_where(vals, |u: u64| u < v) < spec_target(vals.len() as int, numer as int, denom as int),
    ensures
        spec_total(s@) == vals.len(),
        in_bucket(v, spec_bucket(v)),
        spec_percentile(s@, numer as int, denom as int) == pow2(spec_bucket(v) as nat),
        v == 0 ==> spec_percentile(s@, numer as int, denom as int) == 1,
        0 < v < pow2(62) ==> v < spec_percentile(s@, numer as int, denom as int) <= 2 * v,
{
    let c = s@;
    let n = vals.len() as int;
    let t = spec_target(n, numer as int, denom as int);
    let kv = spec_bucket(v);
    lemma_bucket_exists(v);
    lemma_cumulative_count(c, vals, 63);
    assert(c.take(64) =~= c);
    assert forall|u: u64| #[trigger] spec_bucket(u) <= 63 by {
        lemma_bucket_exists(u);
    }
    lemma_count_all(vals, |u: u64| spec_bucket(u) <= 63);
    assert(spec_total(c) == n);
    // Bucket `kv` reaches the rank: every value at most `v` is in a bucket at most `kv`.
    lemma_cumulative_count(c, vals, kv);
    assert forall|u: u64| u <= v implies #[trigger] spec_bucket(u) <= kv by {
        lemma_bucket_monotone(u, v);
    }
    lemma_count_monotone(vals, |x: u64| x <= v, |x: u64| spec_bucket(x) <= kv);
    // No earlier bucket does: a value in a lower bucket is below `v`.
    assert forall|j: int| 0 <= j < kv implies spec_total(#[trigger] c.take(j + 1)) < t by {
        lemma_cumulative_count(c, vals, j);
        assert forall|u: u64| #[trigger] spec_bucket(u) <= j implies u < v by {
            if u >= v {
                lemma_bucket_monotone(v, u);
            }
        }
        lemma_count_monotone(vals, |x: u64| spec_bucket(x) <= j, |x: u64| x < v);
    }
    lemma_first_reaching_is(c, t, 0, kv);
    assert(n > 0) by {
        lemma_count_monotone(vals, |x: u64| x <= v, |x: u64| true);
        lemma_count_all(vals, |x: u64| true);
    }
    if v == 0 {
        lemma2_to64();
    }
    if 0 < v < pow2(62) {
        lemma2_to64();
        lemma2_to64_rest();
        if kv == 63 {
            assert(false);
        }
        lemma_pow2_unfold(kv as nat);
    }
}

} // verus!
