use macrobm::name_map::NameMap;
use macrobm::num_text::{format_nanos, i64_to_string, parse_nanos, u64_to_string};
use macrobm::persist::{read_results, write_result_text, PersistError};

#[test]
fn test_read_result() {
    let result_str = "---
    - program1:
      - 0.9
      - 1.1
      - 1.2
      - 1.3
      - 1.5";
    let result = read_results(result_str).unwrap();

    let times = result.get("program1").unwrap();
    assert_eq!(times[0], 900_000_000);
    assert_eq!(times[1], 1_100_000_000);
    assert_eq!(times[2], 1_200_000_000);
    assert_eq!(times[3], 1_300_000_000);
    assert_eq!(times[4], 1_500_000_000);
}

#[test]
fn test_results_round_trip() {
    // persisting a mapping and reloading it reproduces it exactly
    let mut results: NameMap<Vec<u64>> = NameMap::new();
    results.insert("beta".to_string(), vec![1_500_000_000, 900_000_000, 12]);
    results.insert("alpha".to_string(), vec![42]);
    results.insert("gamma".to_string(), vec![0, 1_000_000_000]);

    let text = write_result_text(&results).unwrap();
    let reloaded = read_results(text.as_str()).unwrap();

    assert_eq!(reloaded.len(), 3);
    assert_eq!(reloaded.get("alpha").unwrap(), &vec![42u64]);
    assert_eq!(reloaded.get("beta").unwrap(), &vec![1_500_000_000u64, 900_000_000, 12]);
    assert_eq!(reloaded.get("gamma").unwrap(), &vec![0u64, 1_000_000_000]);
}

#[test]
fn test_read_result_malformed() {
    // a result document must be a sequence of mappings
    let result_str = "---
    program1: 17";
    assert_eq!(read_results(result_str).err(), Some(PersistError::Malformed));
}

#[test]
fn test_read_result_rejects_integers() {
    // durations are float scalars; a bare integer is rejected
    let result_str = "---
    - program1:
      - 15";
    assert_eq!(read_results(result_str).err(), Some(PersistError::Malformed));
}

#[test]
fn test_read_result_no_document() {
    assert_eq!(read_results("").err(), Some(PersistError::NoDocument));
}

#[test]
fn test_format_nanos_text() {
    assert_eq!(format_nanos(1_500_000_000), "1.500000000");
    assert_eq!(format_nanos(0), "0.000000000");
    assert_eq!(format_nanos(123), "0.000000123");
    assert_eq!(format_nanos(15_000_000_001), "15.000000001");
}

#[test]
fn test_parse_nanos_text() {
    assert_eq!(parse_nanos("1.5"), Some(1_500_000_000));
    assert_eq!(parse_nanos("0.9"), Some(900_000_000));
    assert_eq!(parse_nanos("15.000000001"), Some(15_000_000_001));
    assert_eq!(parse_nanos("007.25"), Some(7_250_000_000));
    assert_eq!(parse_nanos("15"), None);
    assert_eq!(parse_nanos("1.5e3"), None);
    assert_eq!(parse_nanos("-1.5"), None);
    assert_eq!(parse_nanos(".5"), None);
    assert_eq!(parse_nanos("1."), None);
    assert_eq!(parse_nanos("1.0000000001"), None);
}

#[test]
fn test_integer_text() {
    assert_eq!(u64_to_string(0), "0");
    assert_eq!(u64_to_string(1234567890), "1234567890");
    assert_eq!(i64_to_string(-123), "-123");
    assert_eq!(i64_to_string(15), "15");
    assert_eq!(i64_to_string(i64::MIN), "-9223372036854775808");
}

#[test]
fn test_name_map_sorted_iteration() {
    // the map iterates its names in lexicographic order, whatever the
    // insertion order was
    let mut m: NameMap<Vec<u64>> = NameMap::new();
    m.insert("zeta".to_string(), vec![1]);
    m.insert("alpha".to_string(), vec![2]);
    m.insert("mid".to_string(), vec![3]);
    m.insert("alpha".to_string(), vec![4]);

    assert_eq!(m.len(), 3);
    assert_eq!(m.key_at(0).as_str(), "alpha");
    assert_eq!(m.key_at(1).as_str(), "mid");
    assert_eq!(m.key_at(2).as_str(), "zeta");
    assert_eq!(m.get("alpha").unwrap(), &vec![4u64]);
    assert!(m.get("absent").is_none());
}
