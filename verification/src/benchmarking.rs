//! Scheduling of trials and collection of their reports.
//!
//! Scheduling expands the configuration mapping, in its deterministic key
//! order, into one trial description per repetition, and accounts for the
//! exact number of trials handed out.  Collection folds the reports, in their
//! nondeterministic arrival order, into per-case duration lists and overall
//! success and failure counts; the number of reports absorbed always equals
//! the number scheduled before any statistics are computed.

use vstd::prelude::*;

use crate::name_map::{lemma_map_insert_found, lemma_map_insert_fresh, map_get, map_insert,
    NameMap};
use crate::report::Report;
use crate::run_config::{config_map_valid, RunConfig, RunConfigV};
use crate::statistics::{durations_ok, no_empty_case, run_durations_ok, MAX_CASE_TRIALS,
    MAX_DURATION_NANOS};
use crate::strkey::lex_lt;

verus! {

/// Everything one trial needs in order to run: its case's name and command
/// line, copied so that the trial owns its data.
#[derive(Debug)]
pub struct TrialSpec {
    pub name: String,
    pub command: String,
    pub args: Vec<String>,
    pub directory: String,
    pub environment: Vec<String>,
}

/// The mathematical content of a `TrialSpec`.
pub ghost struct TrialSpecV {
    pub name: Seq<char>,
    pub command: Seq<char>,
    pub args: Seq<Seq<char>>,
    pub directory: Seq<char>,
    pub environment: Seq<Seq<char>>,
}

impl View for TrialSpec {
    type V = TrialSpecV;

    open spec fn view(&self) -> TrialSpecV {
        TrialSpecV {
            name: self.name@,
            command: self.command@,
            args: self.args.deep_view(),
            directory: self.directory@,
            environment: self.environment.deep_view(),
        }
    }
}

/// The views of a trial list.
pub open spec fn trial_views(ts: Seq<TrialSpec>) -> Seq<TrialSpecV> {
    ts.map_values(|t: TrialSpec| t@)
}

/// The trial a configuration gives rise to.
pub open spec fn trial_of(c: RunConfigV) -> TrialSpecV {
    TrialSpecV {
        name: c.name,
        command: c.command,
        args: c.args,
        directory: c.directory,
        environment: c.environment,
    }
}

/// Total number of trials the mapping asks for: the sum of all counts.
pub open spec fn total_trials(s: Seq<(Seq<char>, RunConfigV)>) -> int
    decreases s.len(),
{
    if s.len() == 0 {
        0
    } else {
        s[0].1.count + total_trials(s.skip(1))
    }
}

/// The full trial list: for each configuration in mapping order, its trial
/// repeated `count` times.
pub open spec fn spec_trials(s: Seq<(Seq<char>, RunConfigV)>) -> Seq<TrialSpecV>
    decreases s.len(),
{
    if s.len() == 0 {
        Seq::empty()
    } else {
        Seq::new(s[0].1.count as nat, |i: int| trial_of(s[0].1)) + spec_trials(s.skip(1))
    }
}

proof fn lemma_total_trials_push(t: Seq<(Seq<char>, RunConfigV)>, x: (Seq<char>, RunConfigV))
    ensures
        total_trials(t.push(x)) == total_trials(t) + x.1.count,
    decreases t.len(),
{
    if t.len() == 0 {
        assert(t.push(x) =~= seq![x]);
        assert(seq![x].skip(1) =~= Seq::<(Seq<char>, RunConfigV)>::empty());
        assert(total_trials(seq![x].skip(1)) == 0);
    } else {
        assert(t.push(x).skip(1) =~= t.skip(1).push(x));
        lemma_total_trials_push(t.skip(1), x);
        assert(t.push(x)[0] == t[0]);
    }
}

proof fn lemma_spec_trials_push(t: Seq<(Seq<char>, RunConfigV)>, x: (Seq<char>, RunConfigV))
    ensures
        spec_trials(t.push(x)) == spec_trials(t) + Seq::new(
            x.1.count as nat,
            |i: int| trial_of(x.1),
        ),
    decreases t.len(),
{
    let rep = Seq::new(x.1.count as nat, |i: int| trial_of(x.1));
    if t.len() == 0 {
        assert(t.push(x) =~= seq![x]);
        assert(seq![x].skip(1) =~= Seq::<(Seq<char>, RunConfigV)>::empty());
        assert(spec_trials(seq![x].skip(1)) =~= Seq::<TrialSpecV>::empty());
        assert(spec_trials(seq![x]) =~= rep);
        assert(spec_trials(t) =~= Seq::<TrialSpecV>::empty());
        assert(spec_trials(t) + rep =~= rep);
    } else {
        assert(t.push(x).skip(1) =~= t.skip(1).push(x));
        lemma_spec_trials_push(t.skip(1), x);
        assert(t.push(x)[0] == t[0]);
        assert(spec_trials(t.push(x)) =~= spec_trials(t) + rep);
    }
}

proof fn lemma_total_trials_concat(
    a: Seq<(Seq<char>, RunConfigV)>,
    b: Seq<(Seq<char>, RunConfigV)>,
)
    ensures
        total_trials(a + b) == total_trials(a) + total_trials(b),
    decreases a.len(),
{
    if a.len() == 0 {
        assert(a + b =~= b);
    } else {
        assert((a + b).skip(1) =~= a.skip(1) + b);
        lemma_total_trials_concat(a.skip(1), b);
        assert((a + b)[0] == a[0]);
    }
}

proof fn lemma_total_trials_nonneg(s: Seq<(Seq<char>, RunConfigV)>)
    requires
        config_map_valid(s),
    ensures
        total_trials(s) >= s.len(),
    decreases s.len(),
{
    if s.len() > 0 {
        assert(forall|j: int| 0 <= j < s.skip(1).len() ==> #[trigger] s.skip(1)[j] == s[j + 1]);
        lemma_total_trials_nonneg(s.skip(1));
        assert(s[0].1.count >= 1);
    }
}

/// Copy a list of strings.
pub(crate) fn clone_strings(v: &Vec<String>) -> (r: Vec<String>)
    ensures
        r@ == v@,
{
    let mut r: Vec<String> = Vec::new();
    let n = v.len();
    let mut i: usize = 0;
    while i < n
        invariant
            n == v@.len(),
            i <= n,
            r@ == v@.take(i as int),
        decreases n - i,
    {
        r.push(v[i].clone());
        proof {
            assert(v@.take(i as int + 1) =~= v@.take(i as int).push(v@[i as int]));
        }
        i += 1;
    }
    proof {
        assert(v@.take(n as int) =~= v@);
    }
    r
}

/// The trial description for one repetition of a configured case.
fn make_trial(config: &RunConfig) -> (t: TrialSpec)
    ensures
        t@ == trial_of(config@),
{
    let t = TrialSpec {
        name: config.name.clone(),
        command: config.command.clone(),
        args: clone_strings(&config.args),
        directory: config.directory.clone(),
        environment: clone_strings(&config.environment),
    };
    proof {
        assert(t.args.deep_view() =~= config.args.deep_view());
        assert(t.environment.deep_view() =~= config.environment.deep_view());
    }
    t
}

/// Scheduling refused to hand out the run.
#[derive(Clone, Copy, Debug, PartialEq, Eq, Structural)]
pub enum ScheduleError {
    /// The counts sum to more trials than one run may record.
    TooManyTrials,
}

/// Expand the configuration mapping, in its deterministic lexicographic key
/// order, into the full list of trials to run: `count` repetitions per case.
/// Returns the trial list together with the number of trials scheduled; the
/// collector later insists on receiving exactly that many reports.
pub fn schedule_benchmarks(bm_cfg: &NameMap<RunConfig>) -> (r: Result<
    (Vec<TrialSpec>, u64),
    ScheduleError,
>)
    requires
        bm_cfg.wf(),
        config_map_valid(bm_cfg@),
    ensures
        match r {
            Ok(p) => {
                &&& total_trials(bm_cfg@) <= MAX_CASE_TRIALS
                &&& p.1 as int == total_trials(bm_cfg@)
                &&& p.0@.len() == total_trials(bm_cfg@)
                &&& trial_views(p.0@) == spec_trials(bm_cfg@)
            },
            Err(e) => total_trials(bm_cfg@) > MAX_CASE_TRIALS && e
                == ScheduleError::TooManyTrials,
        },
{
    let n = bm_cfg.len();
    let mut trials: Vec<TrialSpec> = Vec::new();
    let mut scheduled: u64 = 0;
    let mut i: usize = 0;
    while i < n
        invariant
            bm_cfg.wf(),
            config_map_valid(bm_cfg@),
            n == bm_cfg@.len(),
            i <= n,
            scheduled as int == total_trials(bm_cfg@.take(i as int)),
            scheduled <= MAX_CASE_TRIALS,
            trials@.len() == scheduled,
            trial_views(trials@) == spec_trials(bm_cfg@.take(i as int)),
        decreases n - i,
    {
        let config: &RunConfig = bm_cfg.value_at(i);
        proof {
            assert(crate::run_config::config_valid(bm_cfg@[i as int].1));
        }
        let count: u64 = config.count as u64;
        if count > MAX_CASE_TRIALS - scheduled {
            proof {
                assert(bm_cfg@.take(i as int + 1) =~= bm_cfg@.take(i as int).push(
                    bm_cfg@[i as int],
                ));
                lemma_total_trials_push(bm_cfg@.take(i as int), bm_cfg@[i as int]);
                assert(bm_cfg@.take(i as int + 1) + bm_cfg@.skip(i as int + 1) =~= bm_cfg@);
                lemma_total_trials_concat(
                    bm_cfg@.take(i as int + 1),
                    bm_cfg@.skip(i as int + 1),
                );
                assert(forall|j: int|
                    0 <= j < bm_cfg@.skip(i as int + 1).len() ==> #[trigger] bm_cfg@.skip(
                        i as int + 1,
                    )[j] == bm_cfg@[j + i + 1]);
                lemma_total_trials_nonneg(bm_cfg@.skip(i as int + 1));
            }
            return Err(ScheduleError::TooManyTrials);
        }
        let ghost rep = Seq::new(
            bm_cfg@[i as int].1.count as nat,
            |k: int| trial_of(bm_cfg@[i as int].1),
        );
        let mut j: u64 = 0;
        while j < count
            invariant
                n == bm_cfg@.len(),
                i < n,
                config@ == bm_cfg@[i as int].1,
                count as int == bm_cfg@[i as int].1.count,
                rep.len() == count,
                forall|k: int| 0 <= k < count ==> rep[k] == trial_of(bm_cfg@[i as int].1),
                j <= count,
                scheduled as int == total_trials(bm_cfg@.take(i as int)),
                scheduled + count <= MAX_CASE_TRIALS,
                trials@.len() == scheduled + j,
                trial_views(trials@) == spec_trials(bm_cfg@.take(i as int)) + rep.take(
                    j as int,
                ),
            decreases count - j,
        {
            let t = make_trial(config);
            let ghost prev = trials@;
            trials.push(t);
            proof {
                let lhs = trial_views(trials@);
                let rhs = spec_trials(bm_cfg@.take(i as int)) + rep.take(j as int + 1);
                assert(trial_views(prev) == spec_trials(bm_cfg@.take(i as int)) + rep.take(
                    j as int,
                ));
                assert(trial_views(prev).len() == prev.len());
                assert(rep.take(j as int).len() == j as int);
                assert(rep.take(j as int + 1).len() == j as int + 1);
                assert(trials@.len() == prev.len() + 1);
                assert(lhs.len() == trials@.len());
                assert(lhs.len() == rhs.len());
                assert forall|k: int| 0 <= k < lhs.len() implies lhs[k] == rhs[k] by {
                    assert(lhs[k] == trials@[k]@);
                    if k < prev.len() {
                        assert(trials@[k] == prev[k]);
                        assert(trial_views(prev)[k] == prev[k]@);
                        assert(rep.take(j as int)[k - spec_trials(bm_cfg@.take(i as int)).len()]
                            == rep[k - spec_trials(bm_cfg@.take(i as int)).len()] || k
                            < spec_trials(bm_cfg@.take(i as int)).len());
                    } else {
                        assert(trials@[k] == t);
                        assert(rhs[k] == rep.take(j as int + 1)[j as int]);
                    }
                }
                assert(lhs =~= rhs);
            }
            j += 1;
        }
        proof {
            assert(rep.take(count as int) =~= rep);
        }
        scheduled = scheduled + count;
        proof {
            assert(bm_cfg@.take(i as int + 1) =~= bm_cfg@.take(i as int).push(
                bm_cfg@[i as int],
            ));
            lemma_total_trials_push(bm_cfg@.take(i as int), bm_cfg@[i as int]);
            lemma_spec_trials_push(bm_cfg@.take(i as int), bm_cfg@[i as int]);
        }
        i += 1;
    }
    proof {
        assert(bm_cfg@.take(n as int) =~= bm_cfg@);
    }
    Ok((trials, scheduled))
}

/// The total number of trials the mapping asks for, against the cap the
/// accumulator can absorb.
pub fn count_trials(bm_cfg: &NameMap<RunConfig>) -> (r: Result<u64, ScheduleError>)
    requires
        bm_cfg.wf(),
        config_map_valid(bm_cfg@),
    ensures
        match r {
            Ok(t) => t as int == total_trials(bm_cfg@) && total_trials(bm_cfg@)
                <= MAX_CASE_TRIALS,
            Err(e) => total_trials(bm_cfg@) > MAX_CASE_TRIALS && e
                == ScheduleError::TooManyTrials,
        },
{
    let n = bm_cfg.len();
    let mut scheduled: u64 = 0;
    let mut i: usize = 0;
    while i < n
        invariant
            bm_cfg.wf(),
            config_map_valid(bm_cfg@),
            n == bm_cfg@.len(),
            i <= n,
            scheduled as int == total_trials(bm_cfg@.take(i as int)),
            scheduled <= MAX_CASE_TRIALS,
        decreases n - i,
    {
        let config: &RunConfig = bm_cfg.value_at(i);
        proof {
            assert(crate::run_config::config_valid(bm_cfg@[i as int].1));
        }
        let count: u64 = config.count as u64;
        proof {
            assert(bm_cfg@.take(i as int + 1) =~= bm_cfg@.take(i as int).push(
                bm_cfg@[i as int],
            ));
            lemma_total_trials_push(bm_cfg@.take(i as int), bm_cfg@[i as int]);
        }
        if count > MAX_CASE_TRIALS - scheduled {
            proof {
                assert(bm_cfg@.take(i as int + 1) + bm_cfg@.skip(i as int + 1) =~= bm_cfg@);
                lemma_total_trials_concat(
                    bm_cfg@.take(i as int + 1),
                    bm_cfg@.skip(i as int + 1),
                );
                assert(forall|j: int|
                    0 <= j < bm_cfg@.skip(i as int + 1).len() ==> #[trigger] bm_cfg@.skip(
                        i as int + 1,
                    )[j] == bm_cfg@[j + i + 1]);
                lemma_total_trials_nonneg(bm_cfg@.skip(i as int + 1));
            }
            return Err(ScheduleError::TooManyTrials);
        }
        scheduled = scheduled + count;
        i += 1;
    }
    proof {
        assert(bm_cfg@.take(n as int) =~= bm_cfg@);
    }
    Ok(scheduled)
}

/// Copy a duration list.
fn clone_durations(v: &Vec<u64>) -> (r: Vec<u64>)
    ensures
        r@ == v@,
{
    let mut r: Vec<u64> = Vec::new();
    let n = v.len();
    let mut i: usize = 0;
    while i < n
        invariant
            n == v@.len(),
            i <= n,
            r@ == v@.take(i as int),
        decreases n - i,
    {
        r.push(v[i]);
        proof {
            assert(v@.take(i as int + 1) =~= v@.take(i as int).push(v@[i as int]));
        }
        i += 1;
    }
    proof {
        assert(v@.take(n as int) =~= v@);
    }
    r
}

/// The duration map with one more report folded in: the duration appended to
/// its case's list, or a fresh single-element list for a case first seen.
pub open spec fn spec_absorb(
    s: Seq<(Seq<char>, Seq<u64>)>,
    name: Seq<char>,
    d: u64,
) -> Seq<(Seq<char>, Seq<u64>)> {
    match map_get(s, name) {
        Some(ts) => map_insert(s, name, ts.push(d)),
        None => map_insert(s, name, seq![d]),
    }
}

/// The duration map and the success and failure counts after folding in a
/// report sequence, in order.
pub open spec fn spec_collect(rs: Seq<Report>) -> (Seq<(Seq<char>, Seq<u64>)>, int, int)
    decreases rs.len(),
{
    if rs.len() == 0 {
        (Seq::empty(), 0, 0)
    } else {
        let prev = spec_collect(rs.drop_last());
        let rep = rs.last();
        (
            spec_absorb(prev.0, rep.name@, rep.duration),
            prev.1 + if rep.ecode.success {
                1int
            } else {
                0int
            },
            prev.2 + if rep.ecode.success {
                0int
            } else {
                1int
            },
        )
    }
}

/// The single owner of the accumulated results: per-case duration lists and
/// the overall success and failure counts.  Reports are folded in one at a
/// time, in arrival order.
pub struct Collector {
    pub durations: NameMap<Vec<u64>>,
    pub successes: u64,
    pub failures: u64,
}

impl Collector {
    /// How many reports have been absorbed.
    pub open spec fn received(&self) -> int {
        self.successes + self.failures
    }

    /// The accumulator's invariant: sorted unique case names, no case without
    /// a trial, every list within the machine bounds, and no list longer than
    /// the number of reports absorbed.
    pub open spec fn wf(&self) -> bool {
        &&& self.durations.wf()
        &&& no_empty_case(self.durations@)
        &&& run_durations_ok(self.durations@)
        &&& self.received() <= MAX_CASE_TRIALS
        &&& forall|i: int|
            0 <= i < self.durations@.len() ==> (#[trigger] self.durations@[i]).1.len()
                <= self.received()
    }

    /// An empty accumulator.
    pub fn new() -> (c: Collector)
        ensures
            c.durations@ =~= Seq::<(Seq<char>, Seq<u64>)>::empty(),
            c.successes == 0,
            c.failures == 0,
            c.wf(),
    {
        Collector { durations: NameMap::new(), successes: 0, failures: 0 }
    }

    /// Fold one report in: append its duration to its case's list, creating
    /// the list on first sight of the case, and count its exit status.
    pub fn absorb(&mut self, report: &Report)
        requires
            old(self).wf(),
            old(self).received() < MAX_CASE_TRIALS,
            report.duration <= MAX_DURATION_NANOS,
        ensures
            final(self).durations@ == spec_absorb(
                old(self).durations@,
                report.name@,
                report.duration,
            ),
            final(self).successes as int == old(self).successes + if report.ecode.success {
                1int
            } else {
                0int
            },
            final(self).failures as int == old(self).failures + if report.ecode.success {
                0int
            } else {
                1int
            },
            final(self).wf(),
    {
        let ghost s = self.durations@;
        let r = self.durations.find(report.name.as_str());
        match r {
            Ok(i) => {
                let v: &Vec<u64> = self.durations.value_at(i);
                let mut nv = clone_durations(v);
                nv.push(report.duration);
                self.durations.set_value_at(i, nv);
                proof {
                    assert(forall|j: int|
                        0 <= j < i ==> lex_lt(#[trigger] s[j].0, report.name@));
                    lemma_map_insert_found(s, report.name@, nv@, i as int);
                    assert(self.durations@ =~= map_insert(s, report.name@, nv@));
                    assert(map_get(s, report.name@) == Some(s[i as int].1));
                    assert(nv@ == s[i as int].1.push(report.duration));
                    assert(self.durations@ == spec_absorb(s, report.name@, report.duration));
                }
            },
            Err(i) => {
                let mut nv: Vec<u64> = Vec::new();
                nv.push(report.duration);
                let name = report.name.clone();
                self.durations.insert(name, nv);
                proof {
                    assert(nv@ =~= seq![report.duration]);
                    assert(self.durations@ == spec_absorb(s, report.name@, report.duration));
                    lemma_map_insert_fresh(s, report.name@, nv@, i as int);
                }
            },
        }
        if report.ecode.success {
            self.successes = self.successes + 1;
        } else {
            self.failures = self.failures + 1;
        }
        proof {
            self.lemma_absorb_wf(s, report.name@, report.duration, r, old(self).received());
        }
    }

    /// The accumulator's invariant survives one absorbed report.
    proof fn lemma_absorb_wf(
        &self,
        s: Seq<(Seq<char>, Seq<u64>)>,
        name: Seq<char>,
        d: u64,
        r: Result<usize, usize>,
        prev_received: int,
    )
        requires
            crate::name_map::sorted_keys(s),
            no_empty_case(s),
            run_durations_ok(s),
            0 <= prev_received < MAX_CASE_TRIALS,
            forall|i: int| 0 <= i < s.len() ==> (#[trigger] s[i]).1.len() <= prev_received,
            d <= MAX_DURATION_NANOS,
            self.received() == prev_received + 1,
            self.durations.wf(),
            match r {
                Ok(i) => i < s.len() && s[i as int].0 == name && self.durations@ =~= s.update(
                    i as int,
                    (name, s[i as int].1.push(d)),
                ),
                Err(i) => i <= s.len() && self.durations@ =~= s.subrange(0, i as int) + seq![
                    (name, seq![d]),
                ] + s.skip(i as int),
            },
        ensures
            self.wf(),
    {
        let t = self.durations@;
        match r {
            Ok(i) => {
                assert forall|j: int| 0 <= j < t.len() implies (#[trigger] t[j]).1.len() >= 1
                    && durations_ok(t[j].1) && t[j].1.len() <= self.received() by {
                    if j != i {
                        assert(t[j] == s[j]);
                        assert(t[j].1 == s[j].1);
                        assert(durations_ok(s[j].1));
                    } else {
                        assert(t[j].1 == s[j].1.push(d));
                        assert(t[j].1.len() == s[j].1.len() + 1);
                        assert(durations_ok(s[j].1));
                        assert forall|q: int|
                            0 <= q < t[j].1.len() implies #[trigger] t[j].1[q]
                            <= MAX_DURATION_NANOS by {
                            if q < s[j].1.len() {
                                assert(t[j].1[q] == s[j].1[q]);
                            } else {
                                assert(t[j].1[q] == d);
                            }
                        }
                    }
                }
            },
            Err(i) => {
                assert forall|j: int| 0 <= j < t.len() implies (#[trigger] t[j]).1.len() >= 1
                    && durations_ok(t[j].1) && t[j].1.len() <= self.received() by {
                    if j < i {
                        assert(t[j] == s[j]);
                        assert(t[j].1 == s[j].1);
                        assert(durations_ok(s[j].1));
                    } else if j == i {
                        assert(t[j] == (name, seq![d]));
                        assert(t[j].1.len() == 1);
                        assert(t[j].1[0] == d);
                        assert forall|q: int|
                            0 <= q < t[j].1.len() implies #[trigger] t[j].1[q]
                            <= MAX_DURATION_NANOS by {
                            assert(t[j].1[q] == d);
                        }
                    } else {
                        assert(t[j] == s[j - 1]);
                        assert(t[j].1 == s[j - 1].1);
                        assert(durations_ok(s[j - 1].1));
                    }
                }
            },
        }
    }
}

/// Collect all results for the benchmarks that were scheduled: fold every
/// report, in arrival order, into per-case duration lists and count the
/// successes and failures.  Exactly the given reports are accounted for:
/// successes plus failures equal the number of reports.
pub fn collect_results(reports: &Vec<Report>) -> (r: (NameMap<Vec<u64>>, u64, u64))
    requires
        reports@.len() <= MAX_CASE_TRIALS,
        forall|i: int|
            0 <= i < reports@.len() ==> (#[trigger] reports@[i]).duration <= MAX_DURATION_NANOS,
    ensures
        ({
            let sc = spec_collect(reports@);
            &&& r.0@ == sc.0
            &&& r.1 as int == sc.1
            &&& r.2 as int == sc.2
            &&& r.1 + r.2 == reports@.len()
            &&& r.0.wf()
            &&& no_empty_case(r.0@)
            &&& run_durations_ok(r.0@)
        }),
{
    let mut collector = Collector::new();
    let n = reports.len();
    let mut i: usize = 0;
    proof {
        assert(reports@.take(0) =~= Seq::<Report>::empty());
    }
    while i < n
        invariant
            n == reports@.len(),
            n <= MAX_CASE_TRIALS,
            forall|k: int|
                0 <= k < reports@.len() ==> (#[trigger] reports@[k]).duration
                    <= MAX_DURATION_NANOS,
            i <= n,
            collector.wf(),
            collector.received() == i,
            collector.durations@ == spec_collect(reports@.take(i as int)).0,
            collector.successes as int == spec_collect(reports@.take(i as int)).1,
            collector.failures as int == spec_collect(reports@.take(i as int)).2,
        decreases n - i,
    {
        let report: &Report = &reports[i];
        collector.absorb(report);
        proof {
            assert(reports@.take(i as int + 1).drop_last() =~= reports@.take(i as int));
            assert(reports@.take(i as int + 1).last() == reports@[i as int]);
        }
        i += 1;
    }
    proof {
        assert(reports@.take(n as int) =~= reports@);
    }
    let successes = collector.successes;
    let failures = collector.failures;
    (collector.durations, successes, failures)
}

} // verus!
