use macrobm::benchmarking::{collect_results, count_trials, schedule_benchmarks, Collector,
    ScheduleError};
use macrobm::config::parse_config_file;
use macrobm::report::{ExitStatus, Report};
use macrobm::wrappers::{benchmarking_process, diff_process, reporting_process, BmError,
    DiffError};
use macrobm::statistics::Comparison;

fn ok_status() -> ExitStatus {
    ExitStatus { success: true, code: Some(0) }
}

fn failed_status() -> ExitStatus {
    ExitStatus { success: false, code: Some(1) }
}

#[test]
fn test_schedule_two_cases() {
    // 2 cases with counts {5, 3}: exactly 8 trials are scheduled, in
    // lexicographic case order
    let yaml_str = "---
    cases:
        - name: \"beta\"
          command: \"cmd_b\"
          count: 3
        - name: \"alpha\"
          command: \"cmd_a\"
          count: 5";
    let cfg = parse_config_file(yaml_str).unwrap();

    let (trials, scheduled) = schedule_benchmarks(&cfg).unwrap();
    assert_eq!(scheduled, 8);
    assert_eq!(trials.len(), 8);
    for t in trials.iter().take(5) {
        assert_eq!(t.name, "alpha");
        assert_eq!(t.command, "cmd_a");
    }
    for t in trials.iter().skip(5) {
        assert_eq!(t.name, "beta");
        assert_eq!(t.command, "cmd_b");
    }
    assert_eq!(count_trials(&cfg), Ok(8));
}

#[test]
fn test_schedule_too_many_trials() {
    let yaml_str = "---
    cases:
        - name: \"huge\"
          command: \"cmd\"
          count: 20000000";
    let cfg = parse_config_file(yaml_str).unwrap();
    assert_eq!(schedule_benchmarks(&cfg).err(), Some(ScheduleError::TooManyTrials));
    assert_eq!(count_trials(&cfg), Err(ScheduleError::TooManyTrials));
}

#[test]
fn test_collect_results_accounting() {
    // the collector receives exactly the expected reports and accounts for
    // each: successes plus failures equal the number received
    let reports = vec![
        Report::new("alpha".to_string(), 10, ok_status()),
        Report::new("beta".to_string(), 30, ok_status()),
        Report::new("alpha".to_string(), 20, failed_status()),
        Report::new("alpha".to_string(), 30, ok_status()),
        Report::new("beta".to_string(), 10, ok_status()),
    ];
    let (durations, successes, failures) = collect_results(&reports);
    assert_eq!(successes, 4);
    assert_eq!(failures, 1);
    assert_eq!(successes + failures, reports.len() as u64);
    // per-case lists hold the durations in arrival order
    assert_eq!(durations.get("alpha").unwrap(), &vec![10u64, 20, 30]);
    assert_eq!(durations.get("beta").unwrap(), &vec![30u64, 10]);
}

#[test]
fn test_collector_streaming() {
    let mut collector = Collector::new();
    collector.absorb(&Report::new("only".to_string(), 7, ok_status()));
    collector.absorb(&Report::new("only".to_string(), 9, failed_status()));
    assert_eq!(collector.successes, 1);
    assert_eq!(collector.failures, 1);
    assert_eq!(collector.durations.get("only").unwrap(), &vec![7u64, 9]);
}

#[test]
fn test_end_to_end_run() {
    // scheduling 2 cases with counts {5, 3} yields scheduled == 8; feeding
    // exactly 8 reports back gives successes + failures == 8
    let yaml_str = "---
    cases:
        - name: \"first\"
          command: \"cmd_one\"
          count: 5
        - name: \"second\"
          command: \"cmd_two\"
          count: 3";
    let cfg = parse_config_file(yaml_str).unwrap();
    let (trials, scheduled) = schedule_benchmarks(&cfg).unwrap();
    assert_eq!(scheduled, 8);

    let mut reports = Vec::new();
    for (i, t) in trials.iter().enumerate() {
        let status = if i % 3 == 0 { failed_status() } else { ok_status() };
        reports.push(Report::new(t.name.clone(), 1_000_000 + i as u64, status));
    }
    assert_eq!(reports.len(), 8);

    let outcome = benchmarking_process(&cfg, &reports).unwrap();
    assert_eq!(outcome.successes + outcome.failures, 8);
    assert_eq!(outcome.successes, 5);
    assert_eq!(outcome.failures, 3);
    assert_eq!(outcome.stats.get("first").unwrap().count, 5);
    assert_eq!(outcome.stats.get("second").unwrap().count, 3);
}

#[test]
fn test_run_report_count_mismatch() {
    let yaml_str = "---
    cases:
        - name: \"only\"
          command: \"cmd\"
          count: 2";
    let cfg = parse_config_file(yaml_str).unwrap();
    let reports = vec![Report::new("only".to_string(), 5, ok_status())];
    assert!(matches!(
        benchmarking_process(&cfg, &reports),
        Err(BmError::ReportCountMismatch)
    ));
}

#[test]
fn test_reporting_process() {
    let result_str = "---
    - program1:
      - 1.0
      - 3.0";
    let (durations, stats) = reporting_process(result_str).unwrap();
    assert_eq!(durations.get("program1").unwrap().len(), 2);
    let st = stats.get("program1").unwrap();
    assert_eq!(st.min, 1_000_000_000);
    assert_eq!(st.max, 3_000_000_000);
    assert_eq!(st.avg.num as f64 / st.avg.den as f64, 2_000_000_000.0);
    assert_eq!(st.count, 2);
}

#[test]
fn test_diff_process() {
    let gt = "---
    - sleep:
      - 15.0
      - 16.0";
    let faster = "---
    - sleep:
      - 10.0
      - 11.0
    - extra:
      - 1.0";
    // 2% tolerance: the new run is clearly faster on every metric
    let outcome = diff_process(gt, faster, 2_000).unwrap();
    let c = outcome.comparison.get("sleep").unwrap();
    assert!(matches!(c.avg, Comparison::TwoIsFaster));
    assert!(matches!(c.min, Comparison::TwoIsFaster));
    assert!(matches!(c.max, Comparison::TwoIsFaster));
    // a case present in only one file never appears in the comparison
    assert!(outcome.comparison.get("extra").is_none());
}

#[test]
fn test_diff_zero_reference() {
    let gt = "---
    - sleep:
      - 0.0";
    let re = "---
    - sleep:
      - 1.0";
    assert!(matches!(diff_process(gt, re, 2_000), Err(DiffError::ZeroReference)));
}

#[test]
fn test_diff_huge_tolerance() {
    // a tolerance far beyond one hundred percent makes everything equal
    let gt = "---
    - sleep:
      - 1.0";
    let re = "---
    - sleep:
      - 500.0";
    let outcome = diff_process(gt, re, u64::MAX).unwrap();
    let c = outcome.comparison.get("sleep").unwrap();
    assert!(matches!(c.avg, Comparison::Equal));
    assert!(matches!(c.min, Comparison::Equal));
    assert!(matches!(c.max, Comparison::Equal));
}
