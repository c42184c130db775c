//! Exact summary statistics over recorded durations, and the tolerance-based
//! three-way comparison of two result sets.
//!
//! Durations are integer nanosecond counts.  Averages and mean absolute
//! deviations are therefore exact rationals (`Ratio`): for a sequence `D` of
//! length `n` with sum `S`, the average is `S / n` and the mean absolute
//! deviation is `(Σ |n·D[i] − S|) / n²`.  All arithmetic is carried out in
//! 128-bit integers; the bounds `MAX_DURATION_NANOS` and `MAX_CASE_TRIALS`
//! keep every intermediate value in range.

use vstd::arithmetic::mul::{lemma_mul_inequality, lemma_mul_upper_bound};
use vstd::math::abs;
use vstd::prelude::*;

use crate::name_map::{map_contains, map_get, NameMap};
use crate::strkey::lex_lt;

verus! {

/// Largest accepted single duration, in nanoseconds (about thirteen days).
/// Durations below this bound let every statistic fit a 128-bit integer.
pub const MAX_DURATION_NANOS: u64 = 0x4000000000000;

/// Largest accepted number of recorded trials for one case, and for one run.
pub const MAX_CASE_TRIALS: u64 = 0x1000000;

/// Thousandths of a percent that make up the whole of a reference value:
/// a tolerance `t` counts as the fraction `t / 100000`.
pub const MPCT_PER_UNIT: u64 = 100000;

/// Largest cross product `num · den` for which the tolerance test is exact.
pub const MAX_CMP_CROSS: u128 = 0x10000000000000000000000000;

/// An exact nonnegative rational number `num / den`.
#[derive(Clone, Copy, Debug, PartialEq, Eq, Structural)]
pub struct Ratio {
    pub num: u128,
    pub den: u128,
}

impl View for Ratio {
    type V = Ratio;

    open spec fn view(&self) -> Ratio {
        *self
    }
}

impl Ratio {
    /// The denominator is positive.
    pub open spec fn wf(self) -> bool {
        self.den >= 1
    }

    /// The rational equal to the integer `n`.
    pub open spec fn spec_from_int(n: u64) -> Ratio {
        Ratio { num: n as u128, den: 1 }
    }

    /// The rational equal to the integer `n`.
    pub fn from_int(n: u64) -> (r: Ratio)
        ensures
            r == Ratio::spec_from_int(n),
    {
        Ratio { num: n as u128, den: 1 }
    }

    /// The rational `num / den`.
    pub fn new(num: u128, den: u128) -> (r: Ratio)
        requires
            den >= 1,
        ensures
            r == (Ratio { num, den }),
            r.wf(),
    {
        Ratio { num, den }
    }
}

/// `a < b` as rationals, by cross multiplication.
pub open spec fn ratio_lt(a: Ratio, b: Ratio) -> bool {
    a.num * b.den < b.num * a.den
}

/// Whether `v2` lies within `tol_mpct` thousandths of a percent of `v1`:
/// `|v1 − v2| / v1 <= tol / 100000`, by cross multiplication.
pub open spec fn within_tolerance(v1: Ratio, v2: Ratio, tol_mpct: u64) -> bool {
    MPCT_PER_UNIT * abs(v1.num * v2.den - v2.num * v1.den) <= tol_mpct * (v1.num * v2.den)
}

/// Which of two runs' metrics is the faster one.
#[derive(Clone, Copy, Debug, PartialEq, Eq, Structural)]
pub enum Comparison {
    Equal,
    OneIsFaster,
    TwoIsFaster,
}

/// Per-metric verdicts for one case present in both compared runs.
#[derive(Clone, Copy, Debug, PartialEq, Eq, Structural)]
pub struct ComparisonResult {
    pub avg: Comparison,
    pub min: Comparison,
    pub max: Comparison,
}

impl View for ComparisonResult {
    type V = ComparisonResult;

    open spec fn view(&self) -> ComparisonResult {
        *self
    }
}

/// The verdict on the pair `(v1, v2)`: equal within tolerance, else the
/// smaller (faster) side wins.
pub open spec fn comparison_of(v1: Ratio, v2: Ratio, tol_mpct: u64) -> Comparison {
    if within_tolerance(v1, v2, tol_mpct) {
        Comparison::Equal
    } else if ratio_lt(v1, v2) {
        Comparison::OneIsFaster
    } else {
        Comparison::TwoIsFaster
    }
}

/// The cross products of the two rationals are small enough for the
/// tolerance test to be carried out in 128-bit integers.
pub open spec fn cmp_safe(a: Ratio, b: Ratio) -> bool {
    a.num * b.den <= MAX_CMP_CROSS && b.num * a.den <= MAX_CMP_CROSS
}

/// Compare two metrics; `tol_mpct` (thousandths of a percent) is the band,
/// inclusive at its boundary, within which they count as equal.  The
/// reference value `value1` must not be zero: a relative comparison against
/// zero is undefined.
pub fn compare_single(value1: &Ratio, value2: &Ratio, tol_mpct: u64) -> (c: Comparison)
    requires
        value1.wf(),
        value2.wf(),
        value1.num >= 1,
        cmp_safe(*value1, *value2),
    ensures
        c == comparison_of(*value1, *value2, tol_mpct),
{
    let lhs: u128 = value1.num * value2.den;
    let rhs: u128 = value2.num * value1.den;
    let diff: u128 = if lhs >= rhs {
        lhs - rhs
    } else {
        rhs - lhs
    };
    proof {
        assert(diff <= MAX_CMP_CROSS);
        lemma_mul_inequality(diff as int, MAX_CMP_CROSS as int, 100000);
    }
    // a band so wide that its scaled form leaves 128 bits swallows any
    // difference the bounded cross products can show
    let within = match (tol_mpct as u128).checked_mul(lhs) {
        Some(band) => 100000u128 * diff <= band,
        None => true,
    };
    if within {
        Comparison::Equal
    } else if lhs < rhs {
        Comparison::OneIsFaster
    } else {
        Comparison::TwoIsFaster
    }
}

/// The verdict seen from the other side: the two faster outcomes trade
/// places and equality stays.
pub open spec fn mirrored(c: Comparison) -> Comparison {
    match c {
        Comparison::Equal => Comparison::Equal,
        Comparison::OneIsFaster => Comparison::TwoIsFaster,
        Comparison::TwoIsFaster => Comparison::OneIsFaster,
    }
}

/// Swapping the two sides of a comparison mirrors the verdict, wherever the
/// tolerance test itself is indifferent to the swap.  (The relative
/// difference is measured against the first value, so near the edge of the
/// band the two directions can disagree; such pairs are excluded here.)
pub proof fn lemma_compare_single_mirror(v1: Ratio, v2: Ratio, tol_mpct: u64)
    requires
        v1.wf(),
        v2.wf(),
        v1.num >= 1,
        v2.num >= 1,
        within_tolerance(v1, v2, tol_mpct) == within_tolerance(v2, v1, tol_mpct),
    ensures
        comparison_of(v2, v1, tol_mpct) == mirrored(comparison_of(v1, v2, tol_mpct)),
{
    let lhs = v1.num * v2.den;
    let rhs = v2.num * v1.den;
    if !within_tolerance(v1, v2, tol_mpct) {
        if lhs == rhs {
            assert(abs(lhs - rhs) == 0);
            assert(tol_mpct * lhs >= 0) by {
                lemma_mul_inequality(0, lhs as int, tol_mpct as int);
            }
            assert(within_tolerance(v1, v2, tol_mpct));
        }
        assert(lhs != rhs);
    }
}

/// Sum of a duration sequence.
pub open spec fn sum_of(s: Seq<u64>) -> int
    decreases s.len(),
{
    if s.len() == 0 {
        0
    } else {
        s[0] + sum_of(s.skip(1))
    }
}

/// Smallest element; the neutral element `u64::MAX` for the empty sequence.
pub open spec fn min_of(s: Seq<u64>) -> int
    decreases s.len(),
{
    if s.len() == 0 {
        u64::MAX as int
    } else {
        vstd::math::min(s[0] as int, min_of(s.skip(1)))
    }
}

/// Largest element; the neutral element `0` for the empty sequence.
pub open spec fn max_of(s: Seq<u64>) -> int
    decreases s.len(),
{
    if s.len() == 0 {
        0
    } else {
        vstd::math::max(s[0] as int, max_of(s.skip(1)))
    }
}

/// `Σ |n·s[i] − total|`: the deviation sum, scaled by the length `n`.
pub open spec fn absdev_of(s: Seq<u64>, n: int, total: int) -> int
    decreases s.len(),
{
    if s.len() == 0 {
        0
    } else {
        abs(n * s[0] - total) + absdev_of(s.skip(1), n, total)
    }
}

/// The summary of all trials of one case.
#[derive(Clone, Copy, Debug, PartialEq, Eq, Structural)]
pub struct BMStatistics {
    /// average runtime over all trials of the case
    pub avg: Ratio,
    /// shortest runtime of all trials, in nanoseconds
    pub min: u64,
    /// longest runtime of all trials, in nanoseconds
    pub max: u64,
    /// mean absolute deviation of the runtimes from their average
    pub dev: Ratio,
    /// number of trials recorded
    pub count: usize,
}

impl View for BMStatistics {
    type V = BMStatistics;

    open spec fn view(&self) -> BMStatistics {
        *self
    }
}

/// The summary of a non-empty duration sequence: count, extrema, exact
/// average `S/n` and exact mean absolute deviation `(Σ|n·s[i]−S|)/n²`.
pub open spec fn stats_of(s: Seq<u64>) -> BMStatistics {
    BMStatistics {
        avg: Ratio { num: sum_of(s) as u128, den: s.len() as u128 },
        min: min_of(s) as u64,
        max: max_of(s) as u64,
        dev: Ratio {
            num: absdev_of(s, s.len() as int, sum_of(s)) as u128,
            den: (s.len() * s.len()) as u128,
        },
        count: s.len() as usize,
    }
}

/// The sequence is short enough and its values small enough for exact
/// 128-bit statistics.
pub open spec fn durations_ok(s: Seq<u64>) -> bool {
    s.len() <= MAX_CASE_TRIALS && forall|i: int|
        0 <= i < s.len() ==> #[trigger] s[i] <= MAX_DURATION_NANOS
}

proof fn lemma_sum_push(t: Seq<u64>, x: u64)
    ensures
        sum_of(t.push(x)) == sum_of(t) + x,
    decreases t.len(),
{
    if t.len() == 0 {
        assert(t.push(x) =~= seq![x]);
        assert(seq![x].skip(1) =~= Seq::<u64>::empty());
        assert(sum_of(seq![x]) == x + sum_of(seq![x].skip(1)));
    } else {
        assert(t.push(x).skip(1) =~= t.skip(1).push(x));
        lemma_sum_push(t.skip(1), x);
        assert(t.push(x)[0] == t[0]);
    }
}

proof fn lemma_min_push(t: Seq<u64>, x: u64)
    ensures
        min_of(t.push(x)) == vstd::math::min(min_of(t), x as int),
    decreases t.len(),
{
    if t.len() == 0 {
        assert(t.push(x) =~= seq![x]);
        assert(seq![x].skip(1) =~= Seq::<u64>::empty());
        assert(min_of(seq![x]) == vstd::math::min(x as int, min_of(seq![x].skip(1))));
    } else {
        assert(t.push(x).skip(1) =~= t.skip(1).push(x));
        lemma_min_push(t.skip(1), x);
        assert(t.push(x)[0] == t[0]);
    }
}

proof fn lemma_max_push(t: Seq<u64>, x: u64)
    ensures
        max_of(t.push(x)) == vstd::math::max(max_of(t), x as int),
    decreases t.len(),
{
    if t.len() == 0 {
        assert(t.push(x) =~= seq![x]);
        assert(seq![x].skip(1) =~= Seq::<u64>::empty());
        assert(max_of(seq![x]) == vstd::math::max(x as int, max_of(seq![x].skip(1))));
    } else {
        assert(t.push(x).skip(1) =~= t.skip(1).push(x));
        lemma_max_push(t.skip(1), x);
        assert(t.push(x)[0] == t[0]);
    }
}

proof fn lemma_absdev_push(t: Seq<u64>, x: u64, n: int, total: int)
    ensures
        absdev_of(t.push(x), n, total) == absdev_of(t, n, total) + abs(n * x - total),
    decreases t.len(),
{
    if t.len() == 0 {
        assert(t.push(x) =~= seq![x]);
        assert(seq![x].skip(1) =~= Seq::<u64>::empty());
        assert(absdev_of(seq![x], n, total) == abs(n * x - total) + absdev_of(
            seq![x].skip(1),
            n,
            total,
        ));
    } else {
        assert(t.push(x).skip(1) =~= t.skip(1).push(x));
        lemma_absdev_push(t.skip(1), x, n, total);
        assert(t.push(x)[0] == t[0]);
    }
}

/// The sum of a sequence lies between `len · min` and `len · max`.
pub proof fn lemma_sum_bounds(s: Seq<u64>)
    ensures
        s.len() * min_of(s) <= sum_of(s),
        sum_of(s) <= s.len() * max_of(s),
        min_of(s) >= 0,
        max_of(s) >= 0,
        s.len() >= 1 ==> min_of(s) <= max_of(s),
    decreases s.len(),
{
    if s.len() == 0 {
    } else {
        let t = s.skip(1);
        lemma_sum_bounds(t);
        let n = s.len() as int;
        assert(min_of(s) <= min_of(t) && min_of(s) <= s[0]);
        assert(max_of(s) >= max_of(t) && max_of(s) >= s[0]);
        lemma_mul_inequality(min_of(s), min_of(t), n - 1);
        lemma_mul_inequality(max_of(t), max_of(s), n - 1);
        assert((n - 1) * min_of(s) + min_of(s) == n * min_of(s)) by (nonlinear_arith);
        assert((n - 1) * max_of(s) + max_of(s) == n * max_of(s)) by (nonlinear_arith);
        assert(sum_of(s) == s[0] + sum_of(t));
    }
}

/// Every element lies between the minimum and the maximum.
pub proof fn lemma_min_max_element(s: Seq<u64>, i: int)
    requires
        0 <= i < s.len(),
    ensures
        min_of(s) <= s[i] <= max_of(s),
    decreases s.len(),
{
    if i == 0 {
    } else {
        lemma_min_max_element(s.skip(1), i - 1);
    }
}

/// The summary of a non-empty sequence counts its elements, and its average
/// lies between its minimum and its maximum: `min · n <= S <= max · n`.
pub proof fn lemma_stats_bounds(s: Seq<u64>)
    requires
        s.len() >= 1,
        durations_ok(s),
    ensures
        stats_of(s).count == s.len(),
        stats_of(s).avg.den == s.len(),
        stats_of(s).avg.wf(),
        stats_of(s).dev.wf(),
        (stats_of(s).min as int) * stats_of(s).avg.den <= stats_of(s).avg.num,
        stats_of(s).avg.num <= (stats_of(s).max as int) * stats_of(s).avg.den,
        stats_of(s).min <= stats_of(s).max,
{
    lemma_sum_bounds(s);
    lemma_min_max_element(s, 0);
    lemma_durations_in_range(s);
    assert(1 <= s.len() * s.len() <= (MAX_CASE_TRIALS as int) * (MAX_CASE_TRIALS as int))
        by (nonlinear_arith)
        requires 1 <= s.len() <= MAX_CASE_TRIALS as int;
    lemma_mul_inequality(sum_of(s), s.len() * (MAX_DURATION_NANOS as int), 1);
    lemma_mul_upper_bound(
        s.len() as int,
        MAX_CASE_TRIALS as int,
        MAX_DURATION_NANOS as int,
        MAX_DURATION_NANOS as int,
    );
    assert(stats_of(s).avg.den == s.len());
    assert(stats_of(s).avg.num == sum_of(s));
    assert(stats_of(s).min == min_of(s));
    assert(stats_of(s).max == max_of(s));
    let n = s.len() as int;
    assert(min_of(s) * n <= sum_of(s)) by (nonlinear_arith)
        requires n * min_of(s) <= sum_of(s);
    assert(sum_of(s) <= max_of(s) * n) by (nonlinear_arith)
        requires sum_of(s) <= n * max_of(s);
}

/// Summarize the durations of one case.
fn summarize_one(times: &Vec<u64>) -> (st: BMStatistics)
    requires
        times@.len() >= 1,
        durations_ok(times@),
    ensures
        st == stats_of(times@),
{
    let n = times.len();
    let mut mn: u64 = u64::MAX;
    let mut mx: u64 = 0;
    let mut sum: u128 = 0;
    let mut i: usize = 0;
    while i < n
        invariant
            durations_ok(times@),
            n == times@.len(),
            n >= 1,
            i <= n,
            mn as int == min_of(times@.take(i as int)),
            mx as int == max_of(times@.take(i as int)),
            sum as int == sum_of(times@.take(i as int)),
            sum as int <= (i as int) * (MAX_DURATION_NANOS as int),
        decreases n - i,
    {
        let x = times[i];
        proof {
            let t = times@.take(i as int);
            assert(times@.take(i as int + 1) =~= t.push(times@[i as int]));
            lemma_sum_push(t, times@[i as int]);
            lemma_min_push(t, times@[i as int]);
            lemma_max_push(t, times@[i as int]);
            assert((i as int + 1) * (MAX_DURATION_NANOS as int) == (i as int) * (
            MAX_DURATION_NANOS as int) + MAX_DURATION_NANOS) by (nonlinear_arith);
            lemma_mul_inequality(i as int, MAX_CASE_TRIALS as int, MAX_DURATION_NANOS as int);
        }
        if x < mn {
            mn = x;
        }
        if x > mx {
            mx = x;
        }
        sum = sum + x as u128;
        i += 1;
    }
    proof {
        assert(times@.take(n as int) =~= times@);
        lemma_durations_in_range(times@);
        lemma_mul_upper_bound(
            n as int,
            MAX_CASE_TRIALS as int,
            MAX_DURATION_NANOS as int,
            MAX_DURATION_NANOS as int,
        );
    }
    let total = sum;
    let mut devsum: u128 = 0;
    i = 0;
    while i < n
        invariant
            durations_ok(times@),
            n == times@.len(),
            n >= 1,
            n <= MAX_CASE_TRIALS,
            i <= n,
            total as int == sum_of(times@),
            total as int <= (n as int) * (MAX_DURATION_NANOS as int),
            (n as int) * (MAX_DURATION_NANOS as int) <= (MAX_CASE_TRIALS as int) * (
            MAX_DURATION_NANOS as int),
            devsum as int == absdev_of(times@.take(i as int), n as int, total as int),
            devsum as int <= (i as int) * (MAX_CASE_TRIALS as int) * (MAX_DURATION_NANOS as int),
        decreases n - i,
    {
        let x = times[i];
        proof {
            lemma_mul_upper_bound(n as int, MAX_CASE_TRIALS as int, x as int,
                MAX_DURATION_NANOS as int);
        }
        let prod: u128 = (n as u128) * (x as u128);
        let d: u128 = if prod >= total {
            prod - total
        } else {
            total - prod
        };
        proof {
            let t = times@.take(i as int);
            assert(times@.take(i as int + 1) =~= t.push(times@[i as int]));
            lemma_absdev_push(t, times@[i as int], n as int, total as int);
            assert(d as int == abs((n as int) * (x as int) - total as int));
            assert((i as int + 1) * (MAX_CASE_TRIALS as int) * (MAX_DURATION_NANOS as int) == (
            i as int) * (MAX_CASE_TRIALS as int) * (MAX_DURATION_NANOS as int) + (
            MAX_CASE_TRIALS as int) * (MAX_DURATION_NANOS as int)) by (nonlinear_arith);
            assert((i as int) * (MAX_CASE_TRIALS as int) * (MAX_DURATION_NANOS as int) <= (
            MAX_CASE_TRIALS as int) * (MAX_CASE_TRIALS as int) * (MAX_DURATION_NANOS as int))
                by (nonlinear_arith)
                requires 0 <= i as int <= MAX_CASE_TRIALS as int;
        }
        devsum = devsum + d;
        i += 1;
    }
    proof {
        assert(times@.take(n as int) =~= times@);
        assert(1 <= (n as int) * (n as int) <= (MAX_CASE_TRIALS as int) * (MAX_CASE_TRIALS as int))
            by (nonlinear_arith)
            requires 1 <= n as int <= MAX_CASE_TRIALS as int;
    }
    let den2: u128 = (n as u128) * (n as u128);
    BMStatistics {
        avg: Ratio { num: total, den: n as u128 },
        min: mn,
        max: mx,
        dev: Ratio { num: devsum, den: den2 },
        count: n,
    }
}

/// A statistical precondition was violated.
#[derive(Clone, Copy, Debug, PartialEq, Eq, Structural)]
pub enum StatsError {
    /// A case had an empty duration list: a case must have at least one
    /// recorded trial.
    EmptyCase,
}

/// Each case's durations summarized, keys unchanged.
pub open spec fn stats_map_of(s: Seq<(Seq<char>, Seq<u64>)>) -> Seq<(Seq<char>, BMStatistics)> {
    s.map_values(|p: (Seq<char>, Seq<u64>)| (p.0, stats_of(p.1)))
}

/// Every case's duration list obeys the machine bounds.
pub open spec fn run_durations_ok(s: Seq<(Seq<char>, Seq<u64>)>) -> bool {
    forall|i: int| 0 <= i < s.len() ==> durations_ok(#[trigger] s[i].1)
}

/// Every case has at least one recorded trial.
pub open spec fn no_empty_case(s: Seq<(Seq<char>, Seq<u64>)>) -> bool {
    forall|i: int| 0 <= i < s.len() ==> (#[trigger] s[i].1).len() >= 1
}

/// Reduce each case's duration list to its summary statistics.  Fails, and
/// computes nothing, when some case has an empty duration list.
pub fn process_results(run_statistic: &NameMap<Vec<u64>>) -> (r: Result<
    NameMap<BMStatistics>,
    StatsError,
>)
    requires
        run_statistic.wf(),
        run_durations_ok(run_statistic@),
    ensures
        match r {
            Ok(m) => no_empty_case(run_statistic@) && m@ == stats_map_of(run_statistic@)
                && m.wf(),
            Err(e) => !no_empty_case(run_statistic@) && e == StatsError::EmptyCase,
        },
{
    let n = run_statistic.len();
    let mut result: NameMap<BMStatistics> = NameMap::new();
    let mut i: usize = 0;
    while i < n
        invariant
            run_statistic.wf(),
            run_durations_ok(run_statistic@),
            n == run_statistic@.len(),
            i <= n,
            result@ == stats_map_of(run_statistic@.take(i as int)),
            result.wf(),
            forall|j: int| 0 <= j < i ==> (#[trigger] run_statistic@[j].1).len() >= 1,
        decreases n - i,
    {
        let times: &Vec<u64> = run_statistic.value_at(i);
        if times.len() == 0 {
            return Err(StatsError::EmptyCase);
        }
        let st = summarize_one(times);
        let name = run_statistic.key_at(i).clone();
        proof {
            assert(forall|j: int|
                0 <= j < result@.len() ==> #[trigger] result@[j].0 == run_statistic@.take(
                    i as int,
                )[j].0);
        }
        result.push_entry(name, st);
        proof {
            assert(run_statistic@.take(i as int + 1) =~= run_statistic@.take(i as int).push(
                run_statistic@[i as int],
            ));
            assert(result@ =~= stats_map_of(run_statistic@.take(i as int + 1)));
        }
        i += 1;
    }
    proof {
        assert(run_statistic@.take(n as int) =~= run_statistic@);
    }
    Ok(result)
}

/// Largest numerator a summary's ratios can reach under the machine bounds.
pub const RATIO_NUM_BOUND: u128 = 0x4000000000000000000;

/// Largest denominator a summary's average can reach: the trial cap.
pub const RATIO_DEN_BOUND: u128 = 0x1000000;

/// The summary's comparable metrics are small enough for the exact
/// tolerance test.
pub open spec fn stats_bounded(st: BMStatistics) -> bool {
    &&& st.avg.wf()
    &&& st.dev.wf()
    &&& st.avg.num <= RATIO_NUM_BOUND
    &&& st.avg.den <= RATIO_DEN_BOUND
    &&& st.min <= MAX_DURATION_NANOS
    &&& st.max <= MAX_DURATION_NANOS
}

/// None of the summary's comparable metrics is zero, so each may serve as
/// the reference of a relative comparison.
pub open spec fn stats_nonzero(st: BMStatistics) -> bool {
    st.avg.num >= 1 && st.min >= 1 && st.max >= 1
}

/// The summary of a sequence within the machine bounds is itself bounded.
pub proof fn lemma_stats_of_bounded(s: Seq<u64>)
    requires
        s.len() >= 1,
        durations_ok(s),
    ensures
        stats_bounded(stats_of(s)),
{
    lemma_durations_in_range(s);
    lemma_mul_upper_bound(
        s.len() as int,
        MAX_CASE_TRIALS as int,
        MAX_DURATION_NANOS as int,
        MAX_DURATION_NANOS as int,
    );
    assert(1 <= s.len() * s.len() <= (MAX_CASE_TRIALS as int) * (MAX_CASE_TRIALS as int))
        by (nonlinear_arith)
        requires 1 <= s.len() <= MAX_CASE_TRIALS as int;
}

/// Two bounded ratios are safe to compare exactly.
pub proof fn lemma_bounded_cmp_safe(a: Ratio, b: Ratio)
    requires
        a.num <= RATIO_NUM_BOUND,
        b.num <= RATIO_NUM_BOUND,
        a.den <= RATIO_DEN_BOUND,
        b.den <= RATIO_DEN_BOUND,
    ensures
        cmp_safe(a, b),
{
    lemma_mul_upper_bound(a.num as int, RATIO_NUM_BOUND as int, b.den as int,
        RATIO_DEN_BOUND as int);
    lemma_mul_upper_bound(b.num as int, RATIO_NUM_BOUND as int, a.den as int,
        RATIO_DEN_BOUND as int);
}

/// Every summary of a run computed from bounded, non-empty duration lists
/// is itself bounded.
pub proof fn lemma_stats_map_bounded(s: Seq<(Seq<char>, Seq<u64>)>)
    requires
        run_durations_ok(s),
        no_empty_case(s),
    ensures
        all_stats_bounded(stats_map_of(s)),
{
    assert forall|i: int|
        0 <= i < stats_map_of(s).len() implies stats_bounded(
        (#[trigger] stats_map_of(s)[i]).1,
    ) by {
        assert(stats_map_of(s)[i] == (s[i].0, stats_of(s[i].1)));
        assert(durations_ok(s[i].1));
        lemma_stats_of_bounded(s[i].1);
    }
}

/// The per-metric verdicts for one case found in both runs.
pub open spec fn cmp_result_of(st1: BMStatistics, st2: BMStatistics, tol_mpct: u64)
    -> ComparisonResult {
    ComparisonResult {
        avg: comparison_of(st1.avg, st2.avg, tol_mpct),
        min: comparison_of(Ratio::spec_from_int(st1.min), Ratio::spec_from_int(st2.min), tol_mpct),
        max: comparison_of(Ratio::spec_from_int(st1.max), Ratio::spec_from_int(st2.max), tol_mpct),
    }
}

/// Comparison of two runs: one verdict per case of `s1` also present in
/// `s2`, in `s1`'s key order; cases present in only one run are left out.
pub open spec fn spec_compare_runs(
    s1: Seq<(Seq<char>, BMStatistics)>,
    s2: Seq<(Seq<char>, BMStatistics)>,
    tol_mpct: u64,
) -> Seq<(Seq<char>, ComparisonResult)>
    decreases s1.len(),
{
    if s1.len() == 0 {
        Seq::empty()
    } else {
        let rest = spec_compare_runs(s1.skip(1), s2, tol_mpct);
        if map_contains(s2, s1[0].0) {
            seq![(s1[0].0, cmp_result_of(s1[0].1, map_get(s2, s1[0].0).unwrap(), tol_mpct))]
                + rest
        } else {
            rest
        }
    }
}

proof fn lemma_spec_compare_runs_push(
    s1: Seq<(Seq<char>, BMStatistics)>,
    x: (Seq<char>, BMStatistics),
    s2: Seq<(Seq<char>, BMStatistics)>,
    tol_mpct: u64,
)
    ensures
        spec_compare_runs(s1.push(x), s2, tol_mpct) == spec_compare_runs(s1, s2, tol_mpct)
            + if map_contains(s2, x.0) {
            seq![(x.0, cmp_result_of(x.1, map_get(s2, x.0).unwrap(), tol_mpct))]
        } else {
            Seq::<(Seq<char>, ComparisonResult)>::empty()
        },
    decreases s1.len(),
{
    let tail = if map_contains(s2, x.0) {
        seq![(x.0, cmp_result_of(x.1, map_get(s2, x.0).unwrap(), tol_mpct))]
    } else {
        Seq::<(Seq<char>, ComparisonResult)>::empty()
    };
    if s1.len() == 0 {
        assert(s1.push(x) =~= seq![x]);
        assert(seq![x].skip(1) =~= Seq::<(Seq<char>, BMStatistics)>::empty());
        assert(spec_compare_runs(seq![x].skip(1), s2, tol_mpct) =~= Seq::<
            (Seq<char>, ComparisonResult),
        >::empty());
        assert(seq![x][0] == x);
        assert(spec_compare_runs(seq![x], s2, tol_mpct) =~= tail);
        assert(spec_compare_runs(s1, s2, tol_mpct) =~= Seq::<
            (Seq<char>, ComparisonResult),
        >::empty());
        assert(spec_compare_runs(s1, s2, tol_mpct) + tail =~= tail);
    } else {
        assert(s1.push(x).skip(1) =~= s1.skip(1).push(x));
        lemma_spec_compare_runs_push(s1.skip(1), x, s2, tol_mpct);
        assert(s1.push(x)[0] == s1[0]);
        assert(spec_compare_runs(s1.push(x), s2, tol_mpct) =~= spec_compare_runs(
            s1,
            s2,
            tol_mpct,
        ) + tail);
    }
}

proof fn lemma_compare_keys_below(
    s1: Seq<(Seq<char>, BMStatistics)>,
    s2: Seq<(Seq<char>, BMStatistics)>,
    tol_mpct: u64,
    bound: Seq<char>,
)
    requires
        forall|j: int| 0 <= j < s1.len() ==> lex_lt(#[trigger] s1[j].0, bound),
    ensures
        forall|j: int|
            0 <= j < spec_compare_runs(s1, s2, tol_mpct).len() ==> lex_lt(
                (#[trigger] spec_compare_runs(s1, s2, tol_mpct)[j]).0,
                bound,
            ),
    decreases s1.len(),
{
    if s1.len() > 0 {
        assert(forall|j: int| 0 <= j < s1.skip(1).len() ==> #[trigger] s1.skip(1)[j] == s1[j + 1]);
        lemma_compare_keys_below(s1.skip(1), s2, tol_mpct, bound);
        let r = spec_compare_runs(s1, s2, tol_mpct);
        let rest = spec_compare_runs(s1.skip(1), s2, tol_mpct);
        if map_contains(s2, s1[0].0) {
            assert(forall|j: int| 1 <= j < r.len() ==> #[trigger] r[j] == rest[j - 1]);
        }
    }
}

/// What the comparison holds under key `k`: a verdict exactly when both runs
/// hold `k`, and then the verdict on the two summaries stored there.
pub proof fn lemma_spec_compare_runs_get(
    s1: Seq<(Seq<char>, BMStatistics)>,
    s2: Seq<(Seq<char>, BMStatistics)>,
    tol_mpct: u64,
    k: Seq<char>,
)
    ensures
        map_get(spec_compare_runs(s1, s2, tol_mpct), k) == if map_contains(s1, k)
            && map_contains(s2, k) {
            Some(cmp_result_of(map_get(s1, k).unwrap(), map_get(s2, k).unwrap(), tol_mpct))
        } else {
            None
        },
    decreases s1.len(),
{
    if s1.len() == 0 {
    } else {
        let r = spec_compare_runs(s1, s2, tol_mpct);
        let rest = spec_compare_runs(s1.skip(1), s2, tol_mpct);
        lemma_spec_compare_runs_get(s1.skip(1), s2, tol_mpct, k);
        if map_contains(s2, s1[0].0) {
            let head = (s1[0].0, cmp_result_of(s1[0].1, map_get(s2, s1[0].0).unwrap(), tol_mpct));
            assert(r == seq![head] + rest);
            assert(r[0] == head);
            assert(r.skip(1) =~= rest);
            if s1[0].0 == k {
                assert(map_get(s1, k) == Some(s1[0].1));
                assert(map_get(r, k) == Some(head.1));
            } else {
                assert(map_get(r, k) == map_get(rest, k));
                assert(map_get(s1, k) == map_get(s1.skip(1), k));
            }
        } else {
            assert(r == rest);
            if s1[0].0 == k {
                assert(!map_contains(s2, k));
                lemma_no_key_from_absent(s1.skip(1), s2, tol_mpct, k);
            } else {
                assert(map_get(s1, k) == map_get(s1.skip(1), k));
            }
        }
    }
}

proof fn lemma_no_key_from_absent(
    s1: Seq<(Seq<char>, BMStatistics)>,
    s2: Seq<(Seq<char>, BMStatistics)>,
    tol_mpct: u64,
    k: Seq<char>,
)
    requires
        !map_contains(s2, k),
    ensures
        map_get(spec_compare_runs(s1, s2, tol_mpct), k) is None,
    decreases s1.len(),
{
    if s1.len() == 0 {
    } else {
        lemma_no_key_from_absent(s1.skip(1), s2, tol_mpct, k);
        let r = spec_compare_runs(s1, s2, tol_mpct);
        let rest = spec_compare_runs(s1.skip(1), s2, tol_mpct);
        if map_contains(s2, s1[0].0) {
            let head = (s1[0].0, cmp_result_of(s1[0].1, map_get(s2, s1[0].0).unwrap(), tol_mpct));
            assert(r == seq![head] + rest);
            assert(r[0] == head);
            assert(s1[0].0 != k);
            assert(r.skip(1) =~= rest);
            assert(map_get(r, k) == map_get(rest, k));
        } else {
            assert(r == rest);
        }
    }
}

/// All summaries of a run are bounded.
pub open spec fn all_stats_bounded(s: Seq<(Seq<char>, BMStatistics)>) -> bool {
    forall|i: int| 0 <= i < s.len() ==> stats_bounded(#[trigger] s[i].1)
}

/// No summary of a run has a zero metric.
pub open spec fn all_stats_nonzero(s: Seq<(Seq<char>, BMStatistics)>) -> bool {
    forall|i: int| 0 <= i < s.len() ==> stats_nonzero(#[trigger] s[i].1)
}

/// Compare two summarized runs case by case, with `run1` as the reference.
/// The result holds exactly the cases present in both runs, in `run1`'s key
/// order; for each, the three metrics min, max and avg are classified as
/// equal within tolerance or won by the faster (smaller) side.
pub fn compare_runs(
    run1: &NameMap<BMStatistics>,
    run2: &NameMap<BMStatistics>,
    tolerance_mpct: u64,
) -> (r: NameMap<ComparisonResult>)
    requires
        run1.wf(),
        run2.wf(),
        all_stats_bounded(run1@),
        all_stats_bounded(run2@),
        all_stats_nonzero(run1@),
    ensures
        r@ == spec_compare_runs(run1@, run2@, tolerance_mpct),
        r.wf(),
        forall|k: Seq<char>|
            #[trigger] map_contains(r@, k) <==> map_contains(run1@, k) && map_contains(run2@, k),
{
    let n = run1.len();
    let mut result: NameMap<ComparisonResult> = NameMap::new();
    let mut i: usize = 0;
    while i < n
        invariant
            run1.wf(),
            run2.wf(),
            all_stats_bounded(run1@),
            all_stats_bounded(run2@),
            all_stats_nonzero(run1@),
            n == run1@.len(),
            i <= n,
            result@ == spec_compare_runs(run1@.take(i as int), run2@, tolerance_mpct),
            result.wf(),
        decreases n - i,
    {
        let name: &String = run1.key_at(i);
        let found = run2.get(name.as_str());
        match found {
            Some(stat2) => {
                let stat1 = run1.value_at(i);
                proof {
                    assert(stats_bounded(run1@[i as int].1));
                    assert(stats_nonzero(run1@[i as int].1));
                    crate::name_map::lemma_map_get_index(run2@, name@);
                    let j = choose|j: int|
                        0 <= j < run2@.len() && #[trigger] run2@[j] == (
                        name@,
                        map_get(run2@, name@).unwrap(),
                    );
                    assert(stats_bounded(run2@[j].1));
                    lemma_bounded_cmp_safe(stat1.avg, stat2.avg);
                    lemma_bounded_cmp_safe(
                        Ratio::spec_from_int(stat1.min),
                        Ratio::spec_from_int(stat2.min),
                    );
                    lemma_bounded_cmp_safe(
                        Ratio::spec_from_int(stat1.max),
                        Ratio::spec_from_int(stat2.max),
                    );
                }
                let best_min = compare_single(
                    &Ratio::from_int(stat1.min),
                    &Ratio::from_int(stat2.min),
                    tolerance_mpct,
                );
                let best_max = compare_single(
                    &Ratio::from_int(stat1.max),
                    &Ratio::from_int(stat2.max),
                    tolerance_mpct,
                );
                let best_avg = compare_single(&stat1.avg, &stat2.avg, tolerance_mpct);
                proof {
                    lemma_compare_keys_below(
                        run1@.take(i as int),
                        run2@,
                        tolerance_mpct,
                        name@,
                    );
                }
                result.push_entry(
                    name.clone(),
                    ComparisonResult { avg: best_avg, min: best_min, max: best_max },
                );
            },
            None => {
            },
        }
        proof {
            assert(run1@.take(i as int + 1) =~= run1@.take(i as int).push(run1@[i as int]));
            lemma_spec_compare_runs_push(
                run1@.take(i as int),
                run1@[i as int],
                run2@,
                tolerance_mpct,
            );
            assert(result@ =~= spec_compare_runs(run1@.take(i as int + 1), run2@,
                tolerance_mpct));
        }
        i += 1;
    }
    proof {
        assert(run1@.take(n as int) =~= run1@);
        assert forall|k: Seq<char>|
            #[trigger] map_contains(result@, k) <==> map_contains(run1@, k) && map_contains(
            run2@, k) by {
            lemma_spec_compare_runs_get(run1@, run2@, tolerance_mpct, k);
        }
    }
    result
}

/// The relative spread of one summary, as a percentage: `100 · dev / avg`.
pub fn calc_relative_variance(statistics: &BMStatistics) -> (r: Ratio)
    requires
        statistics.avg.wf(),
        statistics.dev.wf(),
        statistics.avg.num >= 1,
        100 * statistics.dev.num * statistics.avg.den <= u128::MAX,
        statistics.dev.den * statistics.avg.num <= u128::MAX,
    ensures
        r.num == 100 * statistics.dev.num * statistics.avg.den,
        r.den == statistics.dev.den * statistics.avg.num,
        r.wf(),
{
    proof {
        let d = statistics.dev.num as int;
        let a = statistics.avg.den as int;
        assert(100 * d <= 100 * d * a) by (nonlinear_arith)
            requires
                a >= 1,
                d >= 0,
        ;
        assert(statistics.dev.den * statistics.avg.num >= 1) by (nonlinear_arith)
            requires
                statistics.dev.den >= 1,
                statistics.avg.num >= 1,
        ;
    }
    let num: u128 = 100u128 * statistics.dev.num * statistics.avg.den;
    let den: u128 = statistics.dev.den * statistics.avg.num;
    Ratio { num, den }
}

/// The result with every verdict's sides swapped.
pub open spec fn mirrored_result(c: ComparisonResult) -> ComparisonResult {
    ComparisonResult { avg: mirrored(c.avg), min: mirrored(c.min), max: mirrored(c.max) }
}

/// The tolerance test on each of the three metric pairs is indifferent to
/// the order of its two sides.
pub open spec fn mirror_safe(st1: BMStatistics, st2: BMStatistics, tol_mpct: u64) -> bool {
    &&& within_tolerance(st1.avg, st2.avg, tol_mpct) == within_tolerance(
        st2.avg,
        st1.avg,
        tol_mpct,
    )
    &&& within_tolerance(Ratio::spec_from_int(st1.min), Ratio::spec_from_int(st2.min), tol_mpct)
        == within_tolerance(Ratio::spec_from_int(st2.min), Ratio::spec_from_int(st1.min), tol_mpct)
    &&& within_tolerance(Ratio::spec_from_int(st1.max), Ratio::spec_from_int(st2.max), tol_mpct)
        == within_tolerance(Ratio::spec_from_int(st2.max), Ratio::spec_from_int(st1.max), tol_mpct)
}

/// Comparing two runs in either order gives mirrored verdicts for every case
/// present in both: the equal verdicts match, and the two faster verdicts
/// swap.  The relative difference is measured against the first run's value,
/// so pairs whose tolerance test differs between the two directions are
/// excluded by `mirror_safe`.
pub proof fn lemma_compare_runs_mirror(
    r1: Seq<(Seq<char>, BMStatistics)>,
    r2: Seq<(Seq<char>, BMStatistics)>,
    tol_mpct: u64,
    k: Seq<char>,
)
    requires
        map_contains(r1, k),
        map_contains(r2, k),
        map_get(r1, k).unwrap().avg.wf(),
        map_get(r2, k).unwrap().avg.wf(),
        stats_nonzero(map_get(r1, k).unwrap()),
        stats_nonzero(map_get(r2, k).unwrap()),
        mirror_safe(map_get(r1, k).unwrap(), map_get(r2, k).unwrap(), tol_mpct),
    ensures
        map_get(spec_compare_runs(r1, r2, tol_mpct), k) == Some(
            cmp_result_of(map_get(r1, k).unwrap(), map_get(r2, k).unwrap(), tol_mpct),
        ),
        map_get(spec_compare_runs(r2, r1, tol_mpct), k) == Some(
            mirrored_result(
                cmp_result_of(map_get(r1, k).unwrap(), map_get(r2, k).unwrap(), tol_mpct),
            ),
        ),
{
    let st1 = map_get(r1, k).unwrap();
    let st2 = map_get(r2, k).unwrap();
    lemma_spec_compare_runs_get(r1, r2, tol_mpct, k);
    lemma_spec_compare_runs_get(r2, r1, tol_mpct, k);
    lemma_compare_single_mirror(st1.avg, st2.avg, tol_mpct);
    lemma_compare_single_mirror(
        Ratio::spec_from_int(st1.min),
        Ratio::spec_from_int(st2.min),
        tol_mpct,
    );
    lemma_compare_single_mirror(
        Ratio::spec_from_int(st1.max),
        Ratio::spec_from_int(st2.max),
        tol_mpct,
    );
}

/// Under `durations_ok` every derived quantity fits its 128-bit home.
proof fn lemma_durations_in_range(s: Seq<u64>)
    requires
        durations_ok(s),
    ensures
        0 <= sum_of(s) <= s.len() * (MAX_DURATION_NANOS as int),
        0 <= min_of(s) <= u64::MAX as int,
        s.len() >= 1 ==> min_of(s) <= MAX_DURATION_NANOS,
        0 <= max_of(s) <= MAX_DURATION_NANOS,
    decreases s.len(),
{
    if s.len() > 0 {
        let t = s.skip(1);
        assert(forall|i: int| 0 <= i < t.len() ==> t[i] == s[i + 1]);
        lemma_durations_in_range(t);
        assert(sum_of(s) == s[0] + sum_of(t));
        assert(s.len() * (MAX_DURATION_NANOS as int) == (s.len() - 1) * (
        MAX_DURATION_NANOS as int) + MAX_DURATION_NANOS) by (nonlinear_arith);
    }
}

} // verus!
