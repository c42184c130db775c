//! The top-level operations, each the verified core of one mode of use:
//! running benchmarks, reporting a written result file, and diffing two.
//! Everything around them — files, terminals, the worker pool — stays with
//! the caller; these functions take plain values and account for every
//! report exactly.

use vstd::prelude::*;

use crate::benchmarking::{count_trials, collect_results, spec_collect, total_trials};
use crate::name_map::{map_contains, NameMap};
use crate::persist::{read_results, spec_read_results, PersistError};
use crate::report::Report;
use crate::run_config::{config_map_valid, RunConfig};
use crate::statistics::{all_stats_nonzero, compare_runs, lemma_stats_map_bounded, no_empty_case,
    process_results, run_durations_ok, spec_compare_runs, stats_map_of, stats_nonzero,
    BMStatistics, ComparisonResult, StatsError, MAX_CASE_TRIALS, MAX_DURATION_NANOS};

verus! {

/// Why a benchmark run's accounting was refused.
#[derive(Clone, Copy, Debug, PartialEq, Eq, Structural)]
pub enum BmError {
    /// the configuration asks for more trials than one run may record
    TooManyTrials,
    /// the number of reports differs from the number of trials scheduled
    ReportCountMismatch,
}

/// Everything a finished benchmark run yields: the per-case duration lists
/// in arrival order of their trials, their summaries, and the overall
/// success and failure counts.
pub struct BenchOutcome {
    pub durations: NameMap<Vec<u64>>,
    pub stats: NameMap<BMStatistics>,
    pub successes: u64,
    pub failures: u64,
}

/// The verified core of a benchmark run.  Given the configured cases and
/// the reports their trials produced, check that exactly as many reports
/// arrived as trials were scheduled, fold them into per-case duration
/// lists, and summarize each case.  Every report is accounted for:
/// successes plus failures equal the number of reports received.
pub fn benchmarking_process(bm_cfg: &NameMap<RunConfig>, reports: &Vec<Report>) -> (r: Result<
    BenchOutcome,
    BmError,
>)
    requires
        bm_cfg.wf(),
        config_map_valid(bm_cfg@),
        forall|i: int|
            0 <= i < reports@.len() ==> (#[trigger] reports@[i]).duration <= MAX_DURATION_NANOS,
    ensures
        match r {
            Ok(o) => {
                &&& total_trials(bm_cfg@) <= MAX_CASE_TRIALS
                &&& reports@.len() == total_trials(bm_cfg@)
                &&& o.durations@ == spec_collect(reports@).0
                &&& o.successes as int == spec_collect(reports@).1
                &&& o.failures as int == spec_collect(reports@).2
                &&& o.successes + o.failures == reports@.len()
                &&& o.durations.wf()
                &&& no_empty_case(o.durations@)
                &&& o.stats@ == stats_map_of(spec_collect(reports@).0)
                &&& o.stats.wf()
            },
            Err(BmError::TooManyTrials) => total_trials(bm_cfg@) > MAX_CASE_TRIALS,
            Err(BmError::ReportCountMismatch) => total_trials(bm_cfg@) <= MAX_CASE_TRIALS
                && reports@.len() != total_trials(bm_cfg@),
        },
{
    let expected = match count_trials(bm_cfg) {
        Ok(t) => t,
        Err(_) => {
            return Err(BmError::TooManyTrials);
        },
    };
    if reports.len() as u64 != expected {
        return Err(BmError::ReportCountMismatch);
    }
    let (durations, successes, failures) = collect_results(reports);
    let stats = match process_results(&durations) {
        Ok(s) => s,
        Err(_) => {
            // unreachable: the collector creates a case's list only when a
            // report for it arrives, so no collected case is ever empty
            proof {
                assert(false);
            }
            return Err(BmError::ReportCountMismatch);
        },
    };
    Ok(BenchOutcome { durations, stats, successes, failures })
}

/// Why a written result file could not be reported on.
#[derive(Clone, Copy, Debug, PartialEq, Eq, Structural)]
pub enum ReportError {
    /// the file's text or shape was rejected
    Persist(PersistError),
    /// its duration lists violate a statistical precondition
    Stats(StatsError),
}

/// The verified core of reporting: the text's duration mapping — exactly
/// `spec_read_results` of the text — together with each case's summary.
pub fn reporting_process(result_text: &str) -> (r: Result<
    (NameMap<Vec<u64>>, NameMap<BMStatistics>),
    ReportError,
>)
    ensures
        match r {
            Ok(p) => spec_read_results(result_text@) == Ok::<_, PersistError>(p.0@) && p.0.wf()
                && run_durations_ok(p.0@) && no_empty_case(p.0@) && p.1@ == stats_map_of(p.0@)
                && p.1.wf(),
            Err(ReportError::Persist(pe)) => spec_read_results(result_text@) == Err::<
                Seq<(Seq<char>, Seq<u64>)>,
                _,
            >(pe),
            Err(ReportError::Stats(se)) => (spec_read_results(result_text@) matches Ok(m)
                && !no_empty_case(m)) && se == StatsError::EmptyCase,
        },
{
    let durations = match read_results(result_text) {
        Ok(d) => d,
        Err(e) => {
            return Err(ReportError::Persist(e));
        },
    };
    let stats = match process_results(&durations) {
        Ok(s) => s,
        Err(e) => {
            return Err(ReportError::Stats(e));
        },
    };
    Ok((durations, stats))
}

/// Why two result files could not be compared.
#[derive(Clone, Copy, Debug, PartialEq, Eq, Structural)]
pub enum DiffError {
    /// the ground-truth file's text or shape was rejected
    GroundTruth(PersistError),
    /// the new result file's text or shape was rejected
    NewResult(PersistError),
    /// the ground-truth file violates a statistical precondition
    GroundTruthStats(StatsError),
    /// the new result file violates a statistical precondition
    NewResultStats(StatsError),
    /// a ground-truth metric is zero, so no relative comparison exists
    ZeroReference,
}

/// What diffing two result files yields: both summaries and, for each case
/// present in both, the three per-metric verdicts.
pub struct DiffOutcome {
    pub comparison: NameMap<ComparisonResult>,
    pub gt_stats: NameMap<BMStatistics>,
    pub res_stats: NameMap<BMStatistics>,
}

/// The verified core of diffing: parse both result files, summarize each,
/// and compare them case by case with the ground truth as the reference.
/// The summaries are exactly those of the two texts' duration mappings, and
/// the comparison holds exactly the cases present in both files.
pub fn diff_process(ground_truth: &str, results: &str, tolerance_mpct: u64) -> (r: Result<
    DiffOutcome,
    DiffError,
>)
    ensures
        match r {
            Ok(o) => {
                &&& (spec_read_results(ground_truth@) matches Ok(m1) && o.gt_stats@
                    == stats_map_of(m1))
                &&& (spec_read_results(results@) matches Ok(m2) && o.res_stats@ == stats_map_of(
                    m2,
                ))
                &&& all_stats_nonzero(o.gt_stats@)
                &&& o.comparison@ == spec_compare_runs(o.gt_stats@, o.res_stats@, tolerance_mpct)
                &&& o.comparison.wf()
                &&& o.gt_stats.wf()
                &&& o.res_stats.wf()
                &&& forall|k: Seq<char>|
                    #[trigger] map_contains(o.comparison@, k) <==> map_contains(o.gt_stats@, k)
                        && map_contains(o.res_stats@, k)
            },
            Err(DiffError::GroundTruth(pe)) => spec_read_results(ground_truth@) == Err::<
                Seq<(Seq<char>, Seq<u64>)>,
                _,
            >(pe),
            Err(DiffError::NewResult(pe)) => spec_read_results(ground_truth@) is Ok
                && spec_read_results(results@) == Err::<Seq<(Seq<char>, Seq<u64>)>, _>(pe),
            Err(DiffError::GroundTruthStats(se)) => (spec_read_results(ground_truth@) matches Ok(
                m1,
            ) && !no_empty_case(m1)) && spec_read_results(results@) is Ok && se
                == StatsError::EmptyCase,
            Err(DiffError::NewResultStats(se)) => (spec_read_results(ground_truth@) matches Ok(
                m1,
            ) && no_empty_case(m1)) && (spec_read_results(results@) matches Ok(m2)
                && !no_empty_case(m2)) && se == StatsError::EmptyCase,
            Err(DiffError::ZeroReference) => (spec_read_results(ground_truth@) matches Ok(m1)
                && no_empty_case(m1) && !all_stats_nonzero(stats_map_of(m1)))
                && (spec_read_results(results@) matches Ok(m2) && no_empty_case(m2)),
        },
{
    let gt = match read_results(ground_truth) {
        Ok(d) => d,
        Err(e) => {
            return Err(DiffError::GroundTruth(e));
        },
    };
    let re = match read_results(results) {
        Ok(d) => d,
        Err(e) => {
            return Err(DiffError::NewResult(e));
        },
    };
    let gt_stats = match process_results(&gt) {
        Ok(s) => s,
        Err(e) => {
            return Err(DiffError::GroundTruthStats(e));
        },
    };
    let re_stats = match process_results(&re) {
        Ok(s) => s,
        Err(e) => {
            return Err(DiffError::NewResultStats(e));
        },
    };
    proof {
        lemma_stats_map_bounded(gt@);
        lemma_stats_map_bounded(re@);
    }
    // a zero metric in the ground truth cannot serve as a reference
    let n = gt_stats.len();
    let mut i: usize = 0;
    while i < n
        invariant
            gt_stats.wf(),
            re_stats.wf(),
            n == gt_stats@.len(),
            i <= n,
            (spec_read_results(ground_truth@) matches Ok(m1) && gt_stats@ == stats_map_of(m1)
                && no_empty_case(m1)),
            (spec_read_results(results@) matches Ok(m2) && re_stats@ == stats_map_of(m2)
                && no_empty_case(m2)),
            crate::statistics::all_stats_bounded(gt_stats@),
            crate::statistics::all_stats_bounded(re_stats@),
            forall|q: int| 0 <= q < i ==> stats_nonzero((#[trigger] gt_stats@[q]).1),
        decreases n - i,
    {
        let st = gt_stats.value_at(i);
        if st.min == 0 || st.max == 0 || st.avg.num == 0 {
            proof {
                assert(!stats_nonzero(gt_stats@[i as int].1));
                assert(!all_stats_nonzero(gt_stats@));
            }
            return Err(DiffError::ZeroReference);
        }
        i += 1;
    }
    proof {
        assert(all_stats_nonzero(gt_stats@));
    }
    let comparison = compare_runs(&gt_stats, &re_stats, tolerance_mpct);
    Ok(DiffOutcome { comparison, gt_stats, res_stats: re_stats })
}

} // verus!
