use macrobm::name_map::NameMap;
use macrobm::statistics::{calc_relative_variance, compare_runs, compare_single, process_results,
    BMStatistics, Comparison, Ratio};

fn ratio_f64(r: &Ratio) -> f64 {
    r.num as f64 / r.den as f64
}

fn stats(avg: u64, min: u64, max: u64, dev_num: u128, dev_den: u128, count: usize)
    -> BMStatistics {
    BMStatistics {
        avg: Ratio::from_int(avg),
        min,
        max,
        dev: Ratio::new(dev_num, dev_den),
        count,
    }
}

#[test]
fn test_process_results() {
    let mut collected_times: NameMap<Vec<u64>> = NameMap::new();
    collected_times.insert("simulation".to_string(), vec![15, 14, 16]);
    let stats = process_results(&collected_times).unwrap();
    let stats = stats.get("simulation").unwrap();

    assert_eq!(ratio_f64(&stats.avg), 15.0, "Avg is wrong");
    assert_eq!(stats.min, 14, "Min is wrong");
    assert_eq!(stats.max, 16, "Max is wrong");
    match compare_single(&stats.dev, &Ratio::new(6666, 10000), 500) {
        Comparison::Equal => (),
        _ => panic!("Dev is wrong"),
    };
    assert_eq!(stats.count, 3, "Count is wrong");
}

#[test]
fn test_process_results_exact_deviation() {
    // durations 15, 14, 16: average 15, deviations 0, 1, 1; the mean
    // absolute deviation is 2/3, stored exactly as (3*|15-15| etc.)/3^2
    let mut collected_times: NameMap<Vec<u64>> = NameMap::new();
    collected_times.insert("simulation".to_string(), vec![15, 14, 16]);
    let stats = process_results(&collected_times).unwrap();
    let stats = stats.get("simulation").unwrap();
    assert_eq!(stats.avg.num, 45);
    assert_eq!(stats.avg.den, 3);
    assert_eq!(stats.dev.num, 6);
    assert_eq!(stats.dev.den, 9);
}

#[test]
fn test_process_results_invalid() {
    let mut collected_times: NameMap<Vec<u64>> = NameMap::new();
    collected_times.insert("simulation".to_string(), Vec::<u64>::new());
    assert!(process_results(&collected_times).is_err());
}

#[test]
fn test_process_results_bounds() {
    // min <= avg <= max for every case
    let mut collected_times: NameMap<Vec<u64>> = NameMap::new();
    collected_times.insert("a".to_string(), vec![7, 3, 9, 3]);
    collected_times.insert("b".to_string(), vec![1000000]);
    let stats = process_results(&collected_times).unwrap();
    for name in ["a", "b"] {
        let st = stats.get(name).unwrap();
        let avg = ratio_f64(&st.avg);
        assert!(st.min as f64 <= avg && avg <= st.max as f64);
    }
    assert_eq!(stats.get("a").unwrap().count, 4);
    assert_eq!(stats.get("b").unwrap().count, 1);
}

#[test]
fn test_compare_runs() {
    // run 1 is faster than run 2; durations in nanoseconds
    let run1 = {
        let mut x: NameMap<BMStatistics> = NameMap::new();
        x.insert(
            "sleep".to_string(),
            stats(15_300_000_000, 15_100_000_000, 15_500_000_000, 5, 1000, 100),
        );
        x.insert(
            "not_in_other".to_string(),
            stats(1_000_000_000, 900_000_000, 1_600_000_000, 2, 10, 3),
        );
        x
    };
    let run2 = {
        let mut x: NameMap<BMStatistics> = NameMap::new();
        x.insert(
            "sleep".to_string(),
            stats(16_300_000_000, 16_100_000_000, 16_500_000_000, 5, 1000, 100),
        );
        x.insert(
            "some_unused".to_string(),
            stats(1_000_000_000, 900_000_000, 1_600_000_000, 2, 10, 3),
        );
        x
    };

    // 2% tolerance
    let cmp = compare_runs(&run1, &run2, 2_000);
    let c = cmp.get("sleep").unwrap();
    match c.avg {
        Comparison::OneIsFaster => (),
        _ => panic!("one is faster!"),
    }
    match c.min {
        Comparison::OneIsFaster => (),
        _ => panic!("one is faster!"),
    }
    match c.max {
        Comparison::OneIsFaster => (),
        _ => panic!("one is faster!"),
    }
    assert!(cmp.get("not_in_other").is_none(), "Not allowed in the result!");
    assert!(cmp.get("some_unused").is_none(), "Not allowed in the result!");

    // same as previous comparison, but swapped
    let cmp = compare_runs(&run2, &run1, 2_000);
    let c = cmp.get("sleep").unwrap();
    match c.avg {
        Comparison::TwoIsFaster => (),
        _ => panic!("two is faster!"),
    }
    match c.min {
        Comparison::TwoIsFaster => (),
        _ => panic!("two is faster!"),
    }
    match c.max {
        Comparison::TwoIsFaster => (),
        _ => panic!("two is faster!"),
    }
    assert!(cmp.get("not_in_other").is_none(), "Not allowed in the result!");
    assert!(cmp.get("some_unused").is_none(), "Not allowed in the result!");

    // same as previous comparison, but equality because high tolerance
    let cmp = compare_runs(&run2, &run1, 50_000);
    let c = cmp.get("sleep").unwrap();
    match c.avg {
        Comparison::Equal => (),
        _ => panic!("result considered equal!"),
    }
    match c.min {
        Comparison::Equal => (),
        _ => panic!("result considered equal!"),
    }
    match c.max {
        Comparison::Equal => (),
        _ => panic!("result considered equal!"),
    }
    assert!(cmp.get("not_in_other").is_none(), "Not allowed in the result!");
    assert!(cmp.get("some_unused").is_none(), "Not allowed in the result!");
}

#[test]
fn test_compare_single() {
    match compare_single(&Ratio::from_int(1), &Ratio::from_int(1), 0) {
        Comparison::Equal => (),
        _ => panic!("Expected equality!"),
    }

    match compare_single(&Ratio::from_int(1), &Ratio::from_int(1), 10) {
        Comparison::Equal => (),
        _ => panic!("Expected equality!"),
    }

    match compare_single(&Ratio::from_int(100), &Ratio::from_int(105), 1_000) {
        Comparison::OneIsFaster => (),
        _ => panic!("Expected one is faster!"),
    }

    match compare_single(&Ratio::from_int(105), &Ratio::from_int(100), 1_000) {
        Comparison::TwoIsFaster => (),
        _ => panic!("Expected two is faster!"),
    }

    match compare_single(&Ratio::from_int(100), &Ratio::from_int(103), 4_000) {
        Comparison::Equal => (),
        _ => panic!("Expected equality!"),
    }
}

#[test]
fn test_compare_single_huge_tolerance() {
    // the equality band saturates gracefully where the tolerance times the
    // reference no longer fits 128 bits
    let big = Ratio::new(1u128 << 70, 1);
    let one = Ratio::from_int(1);
    match compare_single(&big, &one, u64::MAX) {
        Comparison::Equal => (),
        _ => panic!("Expected equality!"),
    }
    // relative to the small value the gap still exceeds even this band
    match compare_single(&one, &big, u64::MAX) {
        Comparison::OneIsFaster => (),
        _ => panic!("Expected one is faster!"),
    }
}

#[test]
fn test_compare_mirror() {
    // away from the tolerance boundary the two directions mirror each other
    let v1 = Ratio::from_int(100);
    let v2 = Ratio::from_int(105);
    match compare_single(&v1, &v2, 1_000) {
        Comparison::OneIsFaster => (),
        _ => panic!("Expected one is faster!"),
    }
    match compare_single(&v2, &v1, 1_000) {
        Comparison::TwoIsFaster => (),
        _ => panic!("Expected two is faster!"),
    }
    match compare_single(&v1, &v2, 10_000) {
        Comparison::Equal => (),
        _ => panic!("Expected equality!"),
    }
    match compare_single(&v2, &v1, 10_000) {
        Comparison::Equal => (),
        _ => panic!("Expected equality!"),
    }
}

#[test]
fn test_relative_variance() {
    let mut ez_stats = BMStatistics {
        avg: Ratio::from_int(15),
        min: 0,
        max: 0,
        dev: Ratio::from_int(0),
        count: 100,
    };
    assert_eq!(ratio_f64(&calc_relative_variance(&ez_stats)), 0.0);

    ez_stats.avg = Ratio::from_int(100);
    ez_stats.dev = Ratio::from_int(1);
    assert_eq!(ratio_f64(&calc_relative_variance(&ez_stats)), 1.0);
}
