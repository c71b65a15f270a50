//! The statistical engine: from a window of history and a configuration to a
//! boundary, and from a boundary to a verdict on a new value.
//!
//! All values are integers (the adapters report nanoseconds), so each limit is
//! stated as the integer that separates breaching values from the others: an
//! upper limit `u` is right when exactly the values `v > u` lie strictly above
//! the statistic's bound. Bounds involving a standard deviation are compared
//! in squared form, which keeps them exact without a square root.
use vstd::arithmetic::div_mod::{lemma_fundamental_div_mod, lemma_mod_pos_bound};
use vstd::prelude::*;

verus! {

// ---------------------------------------------------------------------------
// Sums over the history
// ---------------------------------------------------------------------------

/// The sum of the values.
pub open spec fn total(h: Seq<u64>) -> int
    decreases h.len(),
{
    if h.len() == 0 {
        0
    } else {
        total(h.drop_last()) + h.last()
    }
}

/// `Σ (n·x - s)²` over the values `x`; with `n` the count and `s` the sum this
/// is `n²` times the sum of squared deviations from the mean.
pub open spec fn scaled_sq_dev(h: Seq<u64>, n: int, s: int) -> int
    decreases h.len(),
{
    if h.len() == 0 {
        0
    } else {
        scaled_sq_dev(h.drop_last(), n, s) + (n * h.last() - s) * (n * h.last() - s)
    }
}

proof fn lemma_total_bounds(h: Seq<u64>)
    ensures
        0 <= total(h) <= h.len() * u64::MAX,
    decreases h.len(),
{
    if h.len() > 0 {
        lemma_total_bounds(h.drop_last());
    }
}

proof fn lemma_sq_dev_prefix(h: Seq<u64>, n: int, s: int, k: int)
    requires
        0 <= k <= h.len(),
    ensures
        0 <= scaled_sq_dev(h.subrange(0, k), n, s) <= scaled_sq_dev(h, n, s),
    decreases h.len() - k,
{
    if k < h.len() {
        lemma_sq_dev_prefix(h, n, s, k + 1);
        let u = h.subrange(0, k + 1);
        assert(u.drop_last() =~= h.subrange(0, k));
        lemma_sq_dev_nonneg(h.subrange(0, k), n, s);
        let d = n * u.last() - s;
        assert(d * d >= 0) by (nonlinear_arith);
    } else {
        assert(h.subrange(0, k) =~= h);
        lemma_sq_dev_nonneg(h, n, s);
    }
}

proof fn lemma_sq_dev_nonneg(h: Seq<u64>, n: int, s: int)
    ensures
        scaled_sq_dev(h, n, s) >= 0,
    decreases h.len(),
{
    if h.len() > 0 {
        lemma_sq_dev_nonneg(h.drop_last(), n, s);
        let d = n * h.last() - s;
        assert(d * d >= 0) by (nonlinear_arith);
    }
}

/// The sum of the values, for a history of at most `u32::MAX` of them.
pub fn sum_values(h: &Vec<u64>) -> (r: u128)
    requires
        h.len() <= u32::MAX,
    ensures
        r == total(h@),
        r <= h.len() * u64::MAX,
{
    let mut acc: u128 = 0;
    let mut i: usize = 0;
    while i < h.len()
        invariant
            i <= h.len() <= u32::MAX,
            acc == total(h@.subrange(0, i as int)),
            acc <= i * u64::MAX,
        decreases h.len() - i,
    {
        assert(h@.subrange(0, i + 1).drop_last() =~= h@.subrange(0, i as int));
        assert(acc + h[i as int] <= (i + 1) * u64::MAX) by (nonlinear_arith)
            requires
                acc <= i * u64::MAX,
                h[i as int] <= u64::MAX,
        ;
        assert((i + 1) * u64::MAX <= u32::MAX * u64::MAX) by (nonlinear_arith)
            requires
                i + 1 <= u32::MAX,
        ;
        acc = acc + h[i] as u128;
        i = i + 1;
    }
    assert(h@.subrange(0, h.len() as int) =~= h@);
    acc
}

/// `scaled_sq_dev` of the history, or `None` where it exceeds `u128::MAX`.
fn sq_dev_values(h: &Vec<u64>, n: u128, s: u128) -> (r: Option<u128>)
    requires
        n == h.len() <= u32::MAX,
        s == total(h@),
    ensures
        scaled_sq_dev(h@, n as int, s as int) <= u128::MAX ==> r == Some(
            scaled_sq_dev(h@, n as int, s as int) as u128,
        ),
        scaled_sq_dev(h@, n as int, s as int) > u128::MAX ==> r is None,
{
    proof {
        lemma_total_bounds(h@);
        lemma_sq_dev_nonneg(h@, n as int, s as int);
    }
    let mut acc: u128 = 0;
    let mut i: usize = 0;
    while i < h.len()
        invariant
            i <= h.len(),
            n == h.len() <= u32::MAX,
            s == total(h@),
            s <= h.len() * u64::MAX,
            acc == scaled_sq_dev(h@.subrange(0, i as int), n as int, s as int),
        decreases h.len() - i,
    {
        let ghost u = h@.subrange(0, i + 1);
        assert(u.drop_last() =~= h@.subrange(0, i as int));
        assert(n * h[i as int] <= u32::MAX * u64::MAX) by (nonlinear_arith)
            requires
                n <= u32::MAX,
                h[i as int] <= u64::MAX,
        ;
        let nx = n * h[i] as u128;
        let diff = if nx >= s {
            nx - s
        } else {
            s - nx
        };
        assert(diff * diff == (n * h[i as int] - s) * (n * h[i as int] - s)) by (nonlinear_arith)
            requires
                diff == nx - s || diff == s - nx,
                nx == n * h[i as int],
        ;
        let term = match diff.checked_mul(diff) {
            Some(t) => t,
            None => {
                proof {
                    lemma_sq_dev_prefix(h@, n as int, s as int, i as int);
                    lemma_sq_dev_prefix(h@, n as int, s as int, i + 1);
                }
                return None;
            },
        };
        acc = match acc.checked_add(term) {
            Some(a) => a,
            None => {
                proof {
                    lemma_sq_dev_prefix(h@, n as int, s as int, i + 1);
                }
                return None;
            },
        };
        i = i + 1;
    }
    assert(h@.subrange(0, h.len() as int) =~= h@);
    Some(acc)
}

// ---------------------------------------------------------------------------
// Integer square root and the integer limits of a rational bound
// ---------------------------------------------------------------------------

/// The integer square root: `r² ≤ x < (r + 1)²`.
pub fn isqrt(x: u128) -> (r: u128)
    ensures
        r * r <= x < (r + 1) * (r + 1),
        r <= u64::MAX,
{
    let mut lo: u128 = 0;
    let mut hi: u128 = 0x1_0000_0000_0000_0000;
    assert(x < hi * hi) by (nonlinear_arith)
        requires
            hi == 0x1_0000_0000_0000_0000u128,
            x <= u128::MAX,
    ;
    while hi - lo > 1
        invariant
            lo < hi <= 0x1_0000_0000_0000_0000u128,
            lo * lo <= x < hi * hi,
        decreases hi - lo,
    {
        let mid = lo + (hi - lo) / 2;
        assert(mid * mid <= u64::MAX * u64::MAX) by (nonlinear_arith)
            requires
                mid < 0x1_0000_0000_0000_0000u128,
        ;
        if mid * mid <= x {
            lo = mid;
        } else {
            hi = mid;
        }
    }
    assert(lo + 1 == hi);
    lo
}

/// From `u·n ≤ s + k < (u + 1)·n`: `v > u` exactly when `v·n > s + k`.
proof fn lemma_upper_at(s: int, n: int, k: int, u: int, v: int)
    requires
        n > 0,
        u * n <= s + k < (u + 1) * n,
    ensures
        v > u <==> v * n > s + k,
{
    if v > u {
        assert(v * n >= (u + 1) * n) by (nonlinear_arith)
            requires
                v >= u + 1,
                n > 0,
        ;
    } else {
        assert(v * n <= u * n) by (nonlinear_arith)
            requires
                v <= u,
                n > 0,
        ;
    }
}

/// From `(l - 1)·n < s - k ≤ l·n`: `v < l` exactly when `v·n < s - k`.
proof fn lemma_lower_at(s: int, n: int, k: int, l: int, v: int)
    requires
        n > 0,
        (l - 1) * n < s - k <= l * n,
    ensures
        v < l <==> v * n < s - k,
{
    if v < l {
        assert(v * n <= (l - 1) * n) by (nonlinear_arith)
            requires
                v <= l - 1,
                n > 0,
        ;
    } else {
        assert(v * n >= l * n) by (nonlinear_arith)
            requires
                v >= l,
                n > 0,
        ;
    }
}

pub const LIMIT_BOUND: u128 = 0x2000_0000_0000_0000_0000_0000_0000_0000;

/// The integer limits of the bound `(s ± k) / n`: `upper` is its floor for
/// `+`, `lower` its ceiling for `-`.
fn bracket(s: u128, n: u128, k: u128) -> (r: (i128, i128))
    requires
        n > 0,
        s < LIMIT_BOUND,
        k < LIMIT_BOUND,
    ensures
        (r.0 - 1) * n < s - k <= r.0 * n,
        r.1 * n <= s + k < (r.1 + 1) * n,
{
    let q = s / n;
    let rem = s % n;
    proof {
        lemma_fundamental_div_mod(s as int, n as int);
        lemma_mod_pos_bound(s as int, n as int);
    }
    assert(q <= s) by (nonlinear_arith)
        requires
            s == n * q + rem,
            rem >= 0,
            n > 0,
            q >= 0,
    ;
    let w = (rem + k) / n;
    proof {
        lemma_fundamental_div_mod((rem + k) as int, n as int);
        lemma_mod_pos_bound((rem + k) as int, n as int);
    }
    assert(w <= rem + k) by (nonlinear_arith)
        requires
            rem + k == n * w + ((rem + k) as int) % (n as int),
            ((rem + k) as int) % (n as int) >= 0,
            n > 0,
            w >= 0,
    ;
    let upper = (q + w) as i128;
    assert(upper * n <= s + k < (upper + 1) * n) by (nonlinear_arith)
        requires
            upper == q + w,
            s == n * q + rem,
            rem + k == n * w + ((rem + k) as int) % (n as int),
            0 <= ((rem + k) as int) % (n as int) < n,
    ;
    let lower: i128 = if k <= rem {
        let l = if k < rem {
            q + 1
        } else {
            q
        };
        assert((l - 1) * n < s - k <= l * n) by (nonlinear_arith)
            requires
                (k < rem && l == q + 1) || (k == rem && l == q),
                s == n * q + rem,
                rem < n,
        ;
        l as i128
    } else {
        let t = (k - rem) / n;
        proof {
            lemma_fundamental_div_mod((k - rem) as int, n as int);
            lemma_mod_pos_bound((k - rem) as int, n as int);
        }
        assert(t <= k) by (nonlinear_arith)
            requires
                k - rem == n * t + ((k - rem) as int) % (n as int),
                ((k - rem) as int) % (n as int) >= 0,
                n > 0,
                t >= 0,
                rem >= 0,
        ;
        let l = q as i128 - t as i128;
        assert((l - 1) * n < s - k <= l * n) by (nonlinear_arith)
            requires
                l == q - t,
                s == n * q + rem,
                k - rem == n * t + ((k - rem) as int) % (n as int),
                0 <= ((k - rem) as int) % (n as int) < n,
        ;
        l
    };
    (lower, upper)
}


// ---------------------------------------------------------------------------
// Order statistics
// ---------------------------------------------------------------------------

pub open spec fn ints(h: Seq<u64>) -> Seq<int> {
    h.map_values(|x: u64| x as int)
}

pub open spec fn int_le() -> spec_fn(int, int) -> bool {
    |x: int, y: int| x <= y
}

/// The values in ascending order.
pub open spec fn sorted_values(h: Seq<u64>) -> Seq<int> {
    ints(h).sort_by(int_le())
}

proof fn lemma_int_le_total()
    ensures
        vstd::relations::total_ordering(int_le()),
{
    reveal(vstd::relations::total_ordering);
    assert(vstd::relations::reflexive(int_le()));
    assert(vstd::relations::antisymmetric(int_le()));
    assert(vstd::relations::transitive(int_le()));
    assert(vstd::relations::strongly_connected(int_le()));
}

/// The values in ascending order.
pub fn sort_values(h: &Vec<u64>) -> (r: Vec<u64>)
    ensures
        ints(r@) == sorted_values(h@),
        r.len() == h.len(),
{
    broadcast use vstd::seq_lib::group_to_multiset_ensures;

    let mut r: Vec<u64> = Vec::new();
    let mut i: usize = 0;
    while i < h.len()
        invariant
            i <= h.len(),
            vstd::relations::sorted_by(ints(r@), int_le()),
            ints(r@).to_multiset() == ints(h@.subrange(0, i as int)).to_multiset(),
        decreases h.len() - i,
    {
        let x = h[i];
        let mut p: usize = 0;
        while p < r.len() && r[p] <= x
            invariant
                p <= r.len(),
                forall|j: int| 0 <= j < p ==> r@[j] <= x,
            decreases r.len() - p,
        {
            p = p + 1;
        }
        let ghost old_r = r@;
        r.insert(p, x);
        assert(ints(r@) =~= ints(old_r).insert(p as int, x as int));
        assert(ints(h@.subrange(0, i + 1)) =~= ints(h@.subrange(0, i as int)).push(x as int));
        proof {
            vstd::seq_lib::to_multiset_insert(ints(old_r), p as int, x as int);
            vstd::seq_lib::to_multiset_build(ints(h@.subrange(0, i as int)), x as int);
        }
        assert forall|a: int, b: int| 0 <= a < b < r@.len() implies #[trigger] (int_le())(
            ints(r@)[a],
            ints(r@)[b],
        ) by {
            assert(vstd::relations::sorted_by(ints(old_r), int_le()));
            if b < p {
                assert((int_le())(ints(old_r)[a], ints(old_r)[b]));
            } else if b == p {
            } else if a < p {
                assert(r@[b] == old_r[b - 1]);
                if p < old_r.len() {
                    assert(old_r[p as int] > x);
                    if b - 1 > p {
                        assert((int_le())(ints(old_r)[p as int], ints(old_r)[b - 1]));
                    }
                }
            } else if a == p {
                assert(old_r[p as int] > x);
                if b - 1 > p {
                    assert((int_le())(ints(old_r)[p as int], ints(old_r)[b - 1]));
                }
            } else {
                assert((int_le())(ints(old_r)[a - 1], ints(old_r)[b - 1]));
            }
        }
        i = i + 1;
    }
    proof {
        assert(h@.subrange(0, h.len() as int) =~= h@);
        lemma_int_le_total();
        ints(h@).lemma_sort_by_ensures(int_le());
        vstd::seq_lib::lemma_sorted_unique(ints(r@), sorted_values(h@), int_le());
        vstd::seq_lib::to_multiset_len(ints(r@));
        vstd::seq_lib::to_multiset_len(ints(h@));
        assert(ints(r@).len() == ints(h@).len());
    }
    r
}


// ---------------------------------------------------------------------------
// Configuration
// ---------------------------------------------------------------------------

/// The statistical test that a statistic applies.
#[derive(Clone, Copy, Debug, PartialEq, Eq, Structural)]
pub enum TestKind {
    /// `mean ± c · stddev`, `c` the configured critical value.
    ZScore,
    /// `mean ± c · stddev / √n`, `c` the configured critical value.
    TTest,
    /// `mean · (1 ± p)`, `p` the configured fraction.
    Percentage,
    /// `Q1 - k · IQR` and `Q3 + k · IQR`, `k` the configured multiplier.
    Iqr,
}

/// A non-negative rational number `num / den`.
#[derive(Clone, Copy, Debug, PartialEq, Eq, Structural)]
pub struct Ratio {
    pub num: u16,
    pub den: u16,
}

/// One immutable configuration of a statistical test.
#[derive(Clone, Copy, Debug, PartialEq, Eq, Structural)]
pub struct StatisticConfig {
    pub test: TestKind,
    /// Fewer samples than this and no boundary is computed.
    pub min_sample_size: u64,
    /// At most this many of the most recent samples are used.
    pub max_sample_size: Option<u64>,
    /// Only samples at most this many seconds older than the new one are used.
    pub window: Option<u64>,
    pub lower_boundary: bool,
    pub upper_boundary: bool,
    /// The critical value, fraction or multiplier of `test`.
    pub param: Ratio,
}

/// Why a statistic configuration is refused.
#[derive(Clone, Copy, Debug, PartialEq, Eq, Structural)]
pub enum ConfigError {
    /// Neither side has a boundary.
    NoBoundary,
    /// The parameter's denominator is zero.
    ZeroDenominator,
    /// The minimum sample size is below what the test needs.
    MinSampleSize,
    /// The maximum sample size is below the minimum.
    MaxBelowMin,
}

/// The fewest samples that a test can work with.
pub open spec fn kind_min_samples(k: TestKind) -> int {
    match k {
        TestKind::ZScore | TestKind::TTest => 2,
        TestKind::Percentage | TestKind::Iqr => 1,
    }
}

/// The first rule that `c` breaks, if any.
pub open spec fn config_error(c: StatisticConfig) -> Option<ConfigError> {
    if !(c.lower_boundary || c.upper_boundary) {
        Some(ConfigError::NoBoundary)
    } else if c.param.den == 0 {
        Some(ConfigError::ZeroDenominator)
    } else if c.min_sample_size < kind_min_samples(c.test) {
        Some(ConfigError::MinSampleSize)
    } else if c.max_sample_size is Some && c.max_sample_size->0 < c.min_sample_size {
        Some(ConfigError::MaxBelowMin)
    } else {
        None
    }
}

pub open spec fn valid_config(c: StatisticConfig) -> bool {
    config_error(c) is None
}

impl StatisticConfig {
    /// Checks the configuration before anything is stored.
    pub fn validate(&self) -> (r: Result<(), ConfigError>)
        ensures
            r == match config_error(*self) {
                Some(e) => Err(e),
                None => Ok::<(), ConfigError>(()),
            },
    {
        if !(self.lower_boundary || self.upper_boundary) {
            return Err(ConfigError::NoBoundary);
        }
        if self.param.den == 0 {
            return Err(ConfigError::ZeroDenominator);
        }
        let least: u64 = match self.test {
            TestKind::ZScore | TestKind::TTest => 2,
            TestKind::Percentage | TestKind::Iqr => 1,
        };
        if self.min_sample_size < least {
            return Err(ConfigError::MinSampleSize);
        }
        match self.max_sample_size {
            Some(m) => if m < self.min_sample_size {
                return Err(ConfigError::MaxBelowMin);
            },
            None => {},
        }
        Ok(())
    }
}

// ---------------------------------------------------------------------------
// Bounds, limits and the verdict
// ---------------------------------------------------------------------------

/// The side of a boundary that a value breached.
#[derive(Clone, Copy, Debug, PartialEq, Eq, Structural)]
pub enum Side {
    Above,
    Below,
}

/// The computed limits; a side without a boundary has none.
#[derive(Clone, Copy, Debug, PartialEq, Eq, Structural)]
pub struct Boundary {
    pub lower_limit: Option<i128>,
    pub upper_limit: Option<i128>,
}

/// A boundary and what it says of the new value.
#[derive(Clone, Copy, Debug, PartialEq, Eq, Structural)]
pub struct Evaluation {
    pub boundary: Boundary,
    pub breach: Option<Side>,
}

/// Why no evaluation could be made.
#[derive(Clone, Copy, Debug, PartialEq, Eq, Structural)]
pub enum EvalError {
    /// The history is longer than `u32::MAX` samples, or its spread is too
    /// large for exact arithmetic.
    OutOfRange,
}

/// Whether `n` samples suffice for `c`.
pub open spec fn enough_samples(c: StatisticConfig, n: int) -> bool {
    n >= c.min_sample_size && n >= kind_min_samples(c.test)
}

/// The divisor of the scaled spread: `n - 1` for the z-score (the sample
/// variance), `n·(n - 1)` for Student's t (its standard error).
pub open spec fn spread_divisor(k: TestKind, n: int) -> int {
    match k {
        TestKind::TTest => n * (n - 1),
        _ => n - 1,
    }
}

/// With `d = n·(v - mean)`, `m2 = n²·Σ(x - mean)²` and `e` the spread
/// divisor: `d > 0` and `d² · den² · e > num² · m2`, that is
/// `v - mean > (num/den) · √(m2 / (n² · e))`.
pub open spec fn exceeds(d: int, c: Ratio, m2: int, e: int) -> bool {
    d > 0 && d * d * (c.den * c.den * e) > c.num * c.num * m2
}

pub open spec fn lower_quartile(h: Seq<u64>) -> int {
    sorted_values(h)[(h.len() - 1) / 4]
}

pub open spec fn upper_quartile(h: Seq<u64>) -> int {
    sorted_values(h)[(3 * (h.len() - 1)) / 4]
}

/// `v` lies strictly above the statistic's upper bound over history `h`.
pub open spec fn above(c: StatisticConfig, h: Seq<u64>, v: int) -> bool {
    let n = h.len() as int;
    let s = total(h);
    let p = c.param;
    match c.test {
        TestKind::ZScore | TestKind::TTest => exceeds(
            n * v - s,
            p,
            scaled_sq_dev(h, n, s),
            spread_divisor(c.test, n),
        ),
        TestKind::Percentage => v * (n * p.den) > s * p.den + s * p.num,
        TestKind::Iqr => v * p.den > upper_quartile(h) * p.den + p.num * (upper_quartile(h)
            - lower_quartile(h)),
    }
}

/// `v` lies strictly below the statistic's lower bound over history `h`.
pub open spec fn below(c: StatisticConfig, h: Seq<u64>, v: int) -> bool {
    let n = h.len() as int;
    let s = total(h);
    let p = c.param;
    match c.test {
        TestKind::ZScore | TestKind::TTest => exceeds(
            s - n * v,
            p,
            scaled_sq_dev(h, n, s),
            spread_divisor(c.test, n),
        ),
        TestKind::Percentage => v * (n * p.den) < s * p.den - s * p.num,
        TestKind::Iqr => v * p.den < lower_quartile(h) * p.den - p.num * (upper_quartile(h)
            - lower_quartile(h)),
    }
}

/// Exactly the values above `u` breach the upper bound.
pub open spec fn is_upper_limit(c: StatisticConfig, h: Seq<u64>, u: int) -> bool {
    forall|v: int| v > u <==> #[trigger] above(c, h, v)
}

/// Exactly the values below `l` breach the lower bound.
pub open spec fn is_lower_limit(c: StatisticConfig, h: Seq<u64>, l: int) -> bool {
    forall|v: int| v < l <==> #[trigger] below(c, h, v)
}

/// Whether the exact arithmetic of `c` over `h` fits in 128 bits.
pub open spec fn in_range(c: StatisticConfig, h: Seq<u64>) -> bool {
    &&& h.len() <= u32::MAX
    &&& match c.test {
        TestKind::ZScore | TestKind::TTest => c.param.num * c.param.num * scaled_sq_dev(
            h,
            h.len() as int,
            total(h),
        ) <= u128::MAX,
        _ => true,
    }
}

/// `b` holds the limits of `c` over `h`, on the enabled sides only.
pub open spec fn boundary_of(b: Boundary, c: StatisticConfig, h: Seq<u64>) -> bool {
    &&& (c.lower_boundary ==> (b.lower_limit matches Some(l) && is_lower_limit(c, h, l as int)))
    &&& (!c.lower_boundary ==> b.lower_limit is None)
    &&& (c.upper_boundary ==> (b.upper_limit matches Some(u) && is_upper_limit(c, h, u as int)))
    &&& (!c.upper_boundary ==> b.upper_limit is None)
}

/// The verdict on `v`: below an enabled lower bound, else above an enabled
/// upper bound, else none.
pub open spec fn classify(c: StatisticConfig, h: Seq<u64>, v: int) -> Option<Side> {
    if c.lower_boundary && below(c, h, v) {
        Some(Side::Below)
    } else if c.upper_boundary && above(c, h, v) {
        Some(Side::Above)
    } else {
        None
    }
}

/// From `k² ≤ x < (k + 1)²` and `x = ⌊y / z⌋`: `d > k` exactly when `d > 0`
/// and `d² · z > y`.
proof fn lemma_root_compare(d: int, k: int, x: int, y: int, z: int)
    requires
        k >= 0,
        k * k <= x < (k + 1) * (k + 1),
        z > 0,
        x * z <= y < (x + 1) * z,
    ensures
        d > k <==> (d > 0 && d * d * z > y),
{
    if d > k {
        assert(d * d >= (k + 1) * (k + 1)) by (nonlinear_arith)
            requires
                d >= k + 1,
                k >= 0,
        ;
        assert(d * d * z >= (x + 1) * z) by (nonlinear_arith)
            requires
                d * d >= x + 1,
                z > 0,
        ;
    } else if d > 0 {
        assert(d * d <= k * k) by (nonlinear_arith)
            requires
                0 < d <= k,
        ;
        assert(d * d * z <= x * z) by (nonlinear_arith)
            requires
                d * d <= x,
                z > 0,
        ;
    }
}


/// The limits of the z-score and Student's t tests; `None` where the exact
/// arithmetic does not fit.
fn spread_limits(h: &Vec<u64>, c: &StatisticConfig) -> (r: Option<(i128, i128)>)
    requires
        valid_config(*c),
        c.test == TestKind::ZScore || c.test == TestKind::TTest,
        2 <= h.len() <= u32::MAX,
    ensures
        in_range(*c, h@) ==> (r matches Some((l, u)) && is_lower_limit(*c, h@, l as int)
            && is_upper_limit(*c, h@, u as int)),
        !in_range(*c, h@) ==> r is None,
{
    let n = h.len() as u128;
    let s = sum_values(h);
    let num = c.param.num as u128;
    let den = c.param.den as u128;
    let ghost m2 = scaled_sq_dev(h@, n as int, s as int);
    proof {
        lemma_sq_dev_nonneg(h@, n as int, s as int);
    }
    let y: u128 = if num == 0 {
        assert(num * num * m2 == 0) by (nonlinear_arith)
            requires
                num == 0,
        ;
        0
    } else {
        let m = match sq_dev_values(h, n, s) {
            Some(m) => m,
            None => {
                assert(num * num * m2 >= m2) by (nonlinear_arith)
                    requires
                        num >= 1,
                        m2 >= 0,
                ;
                return None;
            },
        };
        assert(num * num <= 0xffff * 0xffff) by (nonlinear_arith)
            requires
                num <= 0xffff,
        ;
        match (num * num).checked_mul(m) {
            Some(y) => y,
            None => return None,
        }
    };
    assert(y == num * num * m2);
    assert(n * (n - 1) <= 0xffff_ffff * 0xffff_ffff) by (nonlinear_arith)
        requires
            2 <= n <= 0xffff_ffff,
    ;
    let e: u128 = match c.test {
        TestKind::TTest => n * (n - 1),
        _ => n - 1,
    };
    assert(e == spread_divisor(c.test, n as int));
    assert(0 < e <= n * n) by (nonlinear_arith)
        requires
            e == n * (n - 1) || e == n - 1,
            n >= 2,
    ;
    assert(n * n <= 0x1_0000_0000 * 0x1_0000_0000) by (nonlinear_arith)
        requires
            n <= 0xffff_ffff,
    ;
    assert(0 < den * den * e <= 0x1_0000_0000 * (0x1_0000_0000 * 0x1_0000_0000)) by (nonlinear_arith)
        requires
            0 < den < 0x1_0000,
            0 < e <= n * n,
            n <= 0xffff_ffff,
            n * n <= 0x1_0000_0000 * 0x1_0000_0000,
    ;
    assert(den * den <= 0xffff * 0xffff) by (nonlinear_arith)
        requires
            den <= 0xffff,
    ;
    let z = den * den * e;
    let x = y / z;
    proof {
        lemma_fundamental_div_mod(y as int, z as int);
        lemma_mod_pos_bound(y as int, z as int);
        assert(x * z <= y < (x + 1) * z) by (nonlinear_arith)
            requires
                y == z * x + (y as int) % (z as int),
                0 <= (y as int) % (z as int) < z,
        ;
        lemma_total_bounds(h@);
        assert(s < LIMIT_BOUND) by (nonlinear_arith)
            requires
                s <= n * u64::MAX,
                n <= 0xffff_ffff,
        ;
    }
    let k = isqrt(x);
    let (lower, upper) = bracket(s, n, k);
    proof {
        assert forall|v: int| v > upper <==> #[trigger] above(*c, h@, v) by {
            lemma_upper_at(s as int, n as int, k as int, upper as int, v);
            lemma_root_compare(n * v - s, k as int, x as int, y as int, z as int);
        }
        assert forall|v: int| v < lower <==> #[trigger] below(*c, h@, v) by {
            lemma_lower_at(s as int, n as int, k as int, lower as int, v);
            lemma_root_compare(s - n * v, k as int, x as int, y as int, z as int);
        }
    }
    Some((lower, upper))
}

/// The limits of the percentage test.
fn percentage_limits(h: &Vec<u64>, c: &StatisticConfig) -> (r: (i128, i128))
    requires
        valid_config(*c),
        c.test == TestKind::Percentage,
        1 <= h.len() <= u32::MAX,
    ensures
        is_lower_limit(*c, h@, r.0 as int),
        is_upper_limit(*c, h@, r.1 as int),
{
    let n = h.len() as u128;
    let s = sum_values(h);
    let num = c.param.num as u128;
    let den = c.param.den as u128;
    proof {
        lemma_total_bounds(h@);
    }
    assert(s * den < LIMIT_BOUND && s * num < LIMIT_BOUND && 0 < n * den <= 0xffff_ffff * 0xffff)
        by (nonlinear_arith)
        requires
            s <= n * u64::MAX,
            1 <= n <= 0xffff_ffff,
            0 < den <= 0xffff,
            num <= 0xffff,
    ;
    let (lower, upper) = bracket(s * den, n * den, s * num);
    proof {
        assert forall|v: int| v > upper <==> #[trigger] above(*c, h@, v) by {
            lemma_upper_at((s * den) as int, (n * den) as int, (s * num) as int, upper as int, v);
        }
        assert forall|v: int| v < lower <==> #[trigger] below(*c, h@, v) by {
            lemma_lower_at((s * den) as int, (n * den) as int, (s * num) as int, lower as int, v);
        }
    }
    (lower, upper)
}

/// The limits of the interquartile-range test.
fn iqr_limits(h: &Vec<u64>, c: &StatisticConfig) -> (r: (i128, i128))
    requires
        valid_config(*c),
        c.test == TestKind::Iqr,
        1 <= h.len() <= u32::MAX,
    ensures
        is_lower_limit(*c, h@, r.0 as int),
        is_upper_limit(*c, h@, r.1 as int),
{
    let t = sort_values(h);
    let n = h.len() as u64;
    let i1 = ((n - 1) / 4) as usize;
    let i3 = ((3 * (n - 1)) / 4) as usize;
    proof {
        lemma_int_le_total();
        ints(h@).lemma_sort_by_ensures(int_le());
        assert(i1 <= i3 < n);
        if i1 < i3 {
            assert((int_le())(sorted_values(h@)[i1 as int], sorted_values(h@)[i3 as int]));
        }
        assert(ints(t@)[i1 as int] == t@[i1 as int]);
        assert(ints(t@)[i3 as int] == t@[i3 as int]);
    }
    let q1 = t[i1];
    let q3 = t[i3];
    assert(q1 == lower_quartile(h@) && q3 == upper_quartile(h@));
    let num = c.param.num as u128;
    let den = c.param.den as u128;
    assert((q1 as u128) * den < LIMIT_BOUND && (q3 as u128) * den < LIMIT_BOUND && num * ((q3
        - q1) as u128) < LIMIT_BOUND)
        by (nonlinear_arith)
        requires
            q1 <= q3 <= u64::MAX,
            0 < den <= 0xffff,
            num <= 0xffff,
    ;
    let spread = num * ((q3 - q1) as u128);
    let (lower, _) = bracket((q1 as u128) * den, den, spread);
    let (_, upper) = bracket((q3 as u128) * den, den, spread);
    proof {
        assert forall|v: int| v > upper <==> #[trigger] above(*c, h@, v) by {
            lemma_upper_at((q3 * den) as int, den as int, spread as int, upper as int, v);
        }
        assert forall|v: int| v < lower <==> #[trigger] below(*c, h@, v) by {
            lemma_lower_at((q1 * den) as int, den as int, spread as int, lower as int, v);
        }
    }
    (lower, upper)
}

/// Evaluates `value` against the boundary that `stat` computes over
/// `history` (oldest first).
///
/// No boundary is computed (`Ok(None)`) where the history is shorter than the
/// minimum sample size or than the test needs.
pub fn evaluate(history: &Vec<u64>, value: u64, stat: &StatisticConfig) -> (r: Result<
    Option<Evaluation>,
    EvalError,
>)
    requires
        valid_config(*stat),
    ensures
        !enough_samples(*stat, history.len() as int) ==> r == Ok::<
            Option<Evaluation>,
            EvalError,
        >(None),
        enough_samples(*stat, history.len() as int) && !in_range(*stat, history@) ==> r == Err::<
            Option<Evaluation>,
            EvalError,
        >(EvalError::OutOfRange),
        enough_samples(*stat, history.len() as int) && in_range(*stat, history@) ==> (r matches Ok(
            Some(e),
        ) && boundary_of(e.boundary, *stat, history@) && e.breach == classify(
            *stat,
            history@,
            value as int,
        )),
{
    let n = history.len();
    let least: usize = match stat.test {
        TestKind::ZScore | TestKind::TTest => 2,
        TestKind::Percentage | TestKind::Iqr => 1,
    };
    if (n as u64) < stat.min_sample_size || n < least {
        return Ok(None);
    }
    if n > u32::MAX as usize {
        return Err(EvalError::OutOfRange);
    }
    let (lower, upper) = match stat.test {
        TestKind::ZScore | TestKind::TTest => match spread_limits(history, stat) {
            Some(p) => p,
            None => return Err(EvalError::OutOfRange),
        },
        TestKind::Percentage => percentage_limits(history, stat),
        TestKind::Iqr => iqr_limits(history, stat),
    };
    let boundary = Boundary {
        lower_limit: if stat.lower_boundary {
            Some(lower)
        } else {
            None
        },
        upper_limit: if stat.upper_boundary {
            Some(upper)
        } else {
            None
        },
    };
    let v = value as i128;
    assert(below(*stat, history@, value as int) == (v < lower));
    assert(above(*stat, history@, value as int) == (v > upper));
    let breach = if stat.lower_boundary && v < lower {
        Some(Side::Below)
    } else if stat.upper_boundary && v > upper {
        Some(Side::Above)
    } else {
        None
    };
    Ok(Some(Evaluation { boundary, breach }))
}

} // verus!
