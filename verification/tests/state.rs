use minimonitor::{AppState, DiskMeasurement, DiskReading, PeerRow, KEEP};

fn dm(ts: u64, bytes_total: u64, bytes_free: u64) -> DiskMeasurement {
    DiskMeasurement {
        ts,
        bytes_total,
        bytes_free,
    }
}

fn disk(mount_point: &str, bytes_total: u64, bytes_free: u64) -> DiskReading {
    DiskReading {
        mount_point: mount_point.to_string(),
        bytes_total,
        bytes_free,
    }
}

fn row(mountpoint: &str, reading: Option<DiskMeasurement>) -> PeerRow {
    (mountpoint.to_string(), reading, (String::new(), String::new()))
}

#[test]
fn a_new_state_has_empty_stores() {
    let state = AppState::new("host".to_string(), "1.2-3".to_string());
    assert_eq!("host", state.hostname);
    assert_eq!("1.2-3", state.versionstr);
    assert_eq!(0, state.all().len());
    assert!(state.latest_per_key().is_empty());
    assert!(state.all_remote().is_empty());
}

#[test]
fn poll_local_feeds_the_queries() {
    let state = AppState::new("host".to_string(), "v".to_string());
    state.poll_local(100, &vec![disk("/", 1_000, 600), disk("/srv", 9_000, 100)]);
    state.poll_local(160, &vec![disk("/", 1_000, 500)]);

    let all = state.all();
    assert_eq!(2, all.len());
    assert_eq!(2, all.get(&"/".to_string()).unwrap().len());

    let recent = state.filtered_since(160);
    assert_eq!(2, recent.len());
    assert_eq!(1, recent.get(&"/".to_string()).unwrap().len());
    assert_eq!(0, recent.get(&"/srv".to_string()).unwrap().len());

    let mut latest = state.latest_per_key();
    latest.sort_by(|a, b| a.0.cmp(&b.0));
    assert_eq!(
        vec![
            ("/".to_string(), Some(dm(160, 1_000, 500))),
            ("/srv".to_string(), Some(dm(100, 9_000, 100))),
        ],
        latest
    );
}

#[test]
fn clones_of_the_state_share_the_stores() {
    let state = AppState::new("host".to_string(), "v".to_string());
    let other = state.clone();
    other.poll_local(100, &vec![disk("/", 1_000, 600)]);
    other.record_fetch(&"http://a".to_string(), Some(vec![row("/", Some(dm(1, 5, 5)))]));
    assert_eq!(1, state.all().len());
    assert_eq!(
        vec![(("http://a".to_string(), "/".to_string()), dm(1, 5, 5))],
        state.all_remote()
    );
}

#[test]
fn record_fetch_drops_a_failed_peer_from_the_aggregate() {
    let state = AppState::new("host".to_string(), "v".to_string());
    let a = "http://a".to_string();
    state.record_fetch(&a, Some(vec![row("/", Some(dm(1, 5, 5)))]));
    assert_eq!(1, state.all_remote().len());
    state.record_fetch(&a, None);
    assert!(state.all_remote().is_empty());
}

#[test]
fn readers_never_see_an_overlong_series() {
    let state = AppState::new("host".to_string(), "v".to_string());
    let pool = tokio::runtime::Builder::new_multi_thread()
        .worker_threads(4)
        .build()
        .unwrap();
    let mut writers = Vec::new();
    for w in 0..2u64 {
        let state = state.clone();
        writers.push(pool.spawn_blocking(move || {
            for i in 0..400u64 {
                let now = 1_000 * w + i;
                state.poll_local(now, &vec![disk("/", 1_000_000, (now * 7_919) % 1_000_000)]);
            }
        }));
    }
    let mut readers = Vec::new();
    for _ in 0..2 {
        let state = state.clone();
        readers.push(pool.spawn_blocking(move || {
            let mut longest = 0;
            for _ in 0..200 {
                let copy = state.all();
                for key in copy.keys() {
                    let len = copy.get(&key).map_or(0, |s| s.len());
                    longest = longest.max(len);
                }
                for (_, newest) in state.latest_per_key() {
                    assert!(newest.is_some());
                }
            }
            longest
        }));
    }
    for w in writers {
        pool.block_on(w).unwrap();
    }
    for r in readers {
        assert!(pool.block_on(r).unwrap() <= KEEP);
    }
    let series_len = state.all().get(&"/".to_string()).unwrap().len();
    assert!(series_len <= KEEP);
    assert!(series_len > 0);
}
