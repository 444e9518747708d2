use minimonitor::{
    add_diskmeasurement, measurements_for, series_summary, DiskMeasurement, DiskMeasurementMap,
    HomeParams,
};
use std::collections::VecDeque;

fn dm(ts: u64, bytes_total: u64, bytes_free: u64) -> DiskMeasurement {
    DiskMeasurement {
        ts,
        bytes_total,
        bytes_free,
    }
}

#[test]
fn home_params_default_to_the_whole_history() {
    assert_eq!(0, HomeParams::default().since);
}

#[test]
fn measurements_for_the_default_is_the_whole_store() {
    let mut m = DiskMeasurementMap::new();
    add_diskmeasurement(&mut m, "/".to_string(), dm(0, 100, 50));
    add_diskmeasurement(&mut m, "/".to_string(), dm(10, 100, 40));
    let copy = measurements_for(&m, &HomeParams::default());
    assert_eq!(m.get(&"/".to_string()), copy.get(&"/".to_string()));
    assert_eq!(1, copy.len());
}

#[test]
fn measurements_for_leaves_out_what_is_older() {
    let mut m = DiskMeasurementMap::new();
    add_diskmeasurement(&mut m, "/".to_string(), dm(0, 100, 50));
    add_diskmeasurement(&mut m, "/".to_string(), dm(10, 100, 40));
    let copy = measurements_for(&m, &HomeParams { since: 10 });
    let kept: Vec<u64> = copy.get(&"/".to_string()).unwrap().iter().map(|e| e.ts).collect();
    assert_eq!(vec![10], kept);
}

#[test]
fn series_summary_describes_the_newest_reading() {
    let mut v = VecDeque::new();
    v.push_back(dm(0, 5, 5));
    v.push_back(dm(10, 100_000, 80_000));
    assert_eq!(
        ("97.7 KiB".to_string(), "78.1 KiB".to_string(), 2),
        series_summary(&v)
    );
}

#[test]
fn series_summary_writes_small_counts_in_bytes() {
    let mut v = VecDeque::new();
    v.push_back(dm(0, 1000, 0));
    assert_eq!(("1000 B".to_string(), "0 B".to_string(), 1), series_summary(&v));
}

#[test]
fn series_summary_picks_the_unit_by_powers_of_1024() {
    let mut v = VecDeque::new();
    v.push_back(dm(0, 1536, 1024));
    v.push_back(dm(1, 500 * 1024 * 1024 * 1024, 3 * 1024 * 1024));
    v.push_back(dm(2, u64::MAX, 1023));
    let mut texts = Vec::new();
    while !v.is_empty() {
        texts.push(series_summary(&v));
        v.pop_back();
    }
    assert_eq!(
        vec![
            ("16.0 EiB".to_string(), "1023 B".to_string(), 3),
            ("500.0 GiB".to_string(), "3.0 MiB".to_string(), 2),
            ("1.5 KiB".to_string(), "1.0 KiB".to_string(), 1),
        ],
        texts
    );
}
