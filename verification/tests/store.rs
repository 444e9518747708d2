use minimonitor::{
    add_diskmeasurement, create_filtered_copy_dms, evict_stale, get_recent_measurements,
    latest_readings, measure_local_disks, read_diskspace, read_diskspaces,
    remove_old_mountpoints, DiskMeasurement, DiskMeasurementMap, DiskReading, KEEP,
    RETENTION_HORIZON,
};

fn gen_testdata(dms: &mut DiskMeasurementMap, mp: &String) {
    for i in (0..100).step_by(10) {
        add_diskmeasurement(
            dms,
            mp.clone(),
            DiskMeasurement {
                ts: i,
                bytes_total: 100_000,
                bytes_free: 80_000 - (i * 200),
            },
        );
    }
}

#[test]
fn test_create_filtered_copy_dms() {
    let mut dms = DiskMeasurementMap::new();
    let mp = String::from("my_only_mp");
    gen_testdata(&mut dms, &mp);
    assert_eq!(1, dms.len());

    // cut nothing away
    let fdms = create_filtered_copy_dms(&dms, 0);
    assert_eq!(10, fdms.get(&mp).expect("full").len());
    assert_eq!(0, fdms.get(&mp).expect("full").front().unwrap().ts);
    assert_eq!(90, fdms.get(&mp).expect("full").iter().last().unwrap().ts);

    // cut the first away
    let fdms = create_filtered_copy_dms(&dms, 10);
    assert_eq!(9, fdms.get(&mp).expect("full").len());
    assert_eq!(10, fdms.get(&mp).expect("full").front().unwrap().ts);
    assert_eq!(90, fdms.get(&mp).expect("full").iter().last().unwrap().ts);

    // cut all but the last away
    let fdms = create_filtered_copy_dms(&dms, 90);
    assert_eq!(1, fdms.get(&mp).expect("full").len());
    assert_eq!(90, fdms.get(&mp).expect("full").front().unwrap().ts);
    assert_eq!(90, fdms.get(&mp).expect("full").iter().last().unwrap().ts);

    // cut everything away
    let fdms = create_filtered_copy_dms(&dms, 91);
    assert_eq!(0, fdms.get(&mp).expect("full").len());
}

fn dm(ts: u64, bytes_total: u64, bytes_free: u64) -> DiskMeasurement {
    DiskMeasurement {
        ts,
        bytes_total,
        bytes_free,
    }
}

fn timestamps_of(m: &DiskMeasurementMap, key: &str) -> Vec<u64> {
    m.get(&key.to_string())
        .expect("known mount point")
        .iter()
        .map(|e| e.ts)
        .collect()
}

fn sorted(mut keys: Vec<String>) -> Vec<String> {
    keys.sort();
    keys
}

#[test]
fn a_new_store_knows_no_mount_point() {
    let m = DiskMeasurementMap::new();
    assert_eq!(0, m.len());
    assert!(m.keys().is_empty());
    assert!(m.get(&"/".to_string()).is_none());
    assert!(!m.contains_key(&"/".to_string()));
    assert!(get_recent_measurements(&m).is_empty());
}

#[test]
fn add_diskmeasurement_creates_a_series_on_first_sight() {
    let mut m = DiskMeasurementMap::new();
    add_diskmeasurement(&mut m, "/".to_string(), dm(1, 100, 50));
    add_diskmeasurement(&mut m, "/home".to_string(), dm(1, 200, 20));
    add_diskmeasurement(&mut m, "/".to_string(), dm(2, 100, 49));
    assert_eq!(2, m.len());
    assert!(m.contains_key(&"/home".to_string()));
    assert!(!m.contains_key(&"/hom".to_string()));
    assert_eq!(vec!["/".to_string(), "/home".to_string()], sorted(m.keys()));
    assert_eq!(vec![1, 2], timestamps_of(&m, "/"));
    assert_eq!(vec![1], timestamps_of(&m, "/home"));
    assert_eq!(dm(2, 100, 49), *m.get(&"/".to_string()).unwrap().back().unwrap());
}

#[test]
fn add_diskmeasurement_never_leaves_more_than_keep() {
    let mut m = DiskMeasurementMap::new();
    let key = "/data".to_string();
    for i in 0..=KEEP as u64 {
        add_diskmeasurement(&mut m, key.clone(), dm(i, 1_000_000, i * 2_000));
        assert!(m.get(&key).unwrap().len() <= KEEP);
        assert_eq!(i, m.get(&key).unwrap().back().unwrap().ts);
    }
    assert_eq!(KEEP, m.get(&key).unwrap().len());
    assert_eq!(1, m.get(&key).unwrap().front().unwrap().ts);
}

#[test]
fn add_diskmeasurement_prefers_dropping_repeats_to_dropping_history() {
    let mut m = DiskMeasurementMap::new();
    let key = "/data".to_string();
    add_diskmeasurement(&mut m, key.clone(), dm(0, 1_000_000_000, 900_000_000));
    add_diskmeasurement(&mut m, key.clone(), dm(1, 1_000_000_000, 800_000_000));
    for i in 2..KEEP as u64 {
        add_diskmeasurement(&mut m, key.clone(), dm(i, 1_000_000_000, 700_000_000));
    }
    assert_eq!(KEEP, m.get(&key).unwrap().len());
    add_diskmeasurement(&mut m, key.clone(), dm(500, 1_000_000_000, 700_000_000));
    // the two oldest readings, which differ, are still there
    assert_eq!(vec![0, 1, 2, 499, 500], timestamps_of(&m, "/data"));
}

#[test]
fn add_diskmeasurement_leaves_other_mount_points_alone() {
    let mut m = DiskMeasurementMap::new();
    add_diskmeasurement(&mut m, "/a".to_string(), dm(1, 10, 5));
    add_diskmeasurement(&mut m, "/b".to_string(), dm(1, 20, 5));
    for i in 2..600 {
        add_diskmeasurement(&mut m, "/b".to_string(), dm(i, 20, 5));
    }
    assert_eq!(vec![1], timestamps_of(&m, "/a"));
    assert!(m.get(&"/b".to_string()).unwrap().len() <= KEEP);
}

#[test]
fn create_filtered_copy_dms_keeps_every_mount_point() {
    let mut m = DiskMeasurementMap::new();
    add_diskmeasurement(&mut m, "/old".to_string(), dm(5, 10, 5));
    add_diskmeasurement(&mut m, "/new".to_string(), dm(50, 10, 5));
    let copy = create_filtered_copy_dms(&m, 10);
    assert_eq!(2, copy.len());
    assert!(copy.get(&"/old".to_string()).unwrap().is_empty());
    assert_eq!(vec![50], timestamps_of(&copy, "/new"));
    // the store itself is as it was
    assert_eq!(vec![5], timestamps_of(&m, "/old"));
}

#[test]
fn get_recent_measurements_gives_the_newest_of_each() {
    let mut m = DiskMeasurementMap::new();
    add_diskmeasurement(&mut m, "/".to_string(), dm(1, 100, 50));
    add_diskmeasurement(&mut m, "/".to_string(), dm(2, 100, 40));
    add_diskmeasurement(&mut m, "/home".to_string(), dm(1, 200, 20));
    let mut rows = get_recent_measurements(&m);
    rows.sort_by(|a, b| a.0.cmp(&b.0));
    assert_eq!(2, rows.len());
    assert_eq!(("/".to_string(), Some(&dm(2, 100, 40))), rows[0]);
    assert_eq!(("/home".to_string(), Some(&dm(1, 200, 20))), rows[1]);
}

#[test]
fn get_recent_measurements_has_a_row_for_an_empty_series() {
    let mut m = DiskMeasurementMap::new();
    add_diskmeasurement(&mut m, "/".to_string(), dm(1, 100, 50));
    let copy = create_filtered_copy_dms(&m, 2);
    let rows = get_recent_measurements(&copy);
    assert_eq!(vec![("/".to_string(), None)], rows);
}

#[test]
fn remove_old_mountpoints_goes_by_the_newest_reading() {
    let mut m = DiskMeasurementMap::new();
    add_diskmeasurement(&mut m, "/gone".to_string(), dm(10, 10, 5));
    add_diskmeasurement(&mut m, "/gone".to_string(), dm(100, 10, 5));
    add_diskmeasurement(&mut m, "/here".to_string(), dm(10, 10, 5));
    add_diskmeasurement(&mut m, "/here".to_string(), dm(101, 10, 5));
    remove_old_mountpoints(&mut m, 100);
    assert_eq!(vec!["/here".to_string()], m.keys());
    // the old reading of what stays is not touched
    assert_eq!(vec![10, 101], timestamps_of(&m, "/here"));
}

#[test]
fn remove_old_mountpoints_forgets_an_empty_series() {
    let mut m = DiskMeasurementMap::new();
    add_diskmeasurement(&mut m, "/".to_string(), dm(1, 100, 50));
    let mut copy = create_filtered_copy_dms(&m, 2);
    assert_eq!(1, copy.len());
    remove_old_mountpoints(&mut copy, 0);
    assert_eq!(0, copy.len());
}

#[test]
fn evict_stale_removes_a_series_as_old_as_the_horizon() {
    let mut m = DiskMeasurementMap::new();
    add_diskmeasurement(&mut m, "/stale".to_string(), dm(13_600, 10, 5));
    add_diskmeasurement(&mut m, "/fresh".to_string(), dm(13_601, 10, 5));
    evict_stale(&mut m, 100_000, 86_400);
    assert_eq!(vec!["/fresh".to_string()], m.keys());
}

#[test]
fn evict_stale_ages_nothing_out_before_the_horizon_has_passed() {
    let mut m = DiskMeasurementMap::new();
    add_diskmeasurement(&mut m, "/".to_string(), dm(0, 10, 5));
    evict_stale(&mut m, 86_399, 86_400);
    assert_eq!(1, m.len());
    evict_stale(&mut m, 0, 86_400);
    assert_eq!(1, m.len());
    evict_stale(&mut m, 86_400, 86_400);
    assert_eq!(0, m.len());
}

#[test]
fn evict_stale_forgets_an_empty_series_whatever_the_clock() {
    let mut m = DiskMeasurementMap::new();
    add_diskmeasurement(&mut m, "/".to_string(), dm(1_000, 100, 50));
    let mut copy = create_filtered_copy_dms(&m, 2_000);
    evict_stale(&mut copy, 0, 86_400);
    assert_eq!(0, copy.len());
}

#[test]
fn read_diskspace_stamps_the_reading() {
    let disk = DiskReading {
        mount_point: "/srv".to_string(),
        bytes_total: 4_000,
        bytes_free: 1_000,
    };
    assert_eq!(("/srv".to_string(), dm(77, 4_000, 1_000)), read_diskspace(77, &disk));
}

#[test]
fn read_diskspaces_records_every_disk() {
    let disks = vec![
        DiskReading {
            mount_point: "/".to_string(),
            bytes_total: 100,
            bytes_free: 60,
        },
        DiskReading {
            mount_point: "/srv".to_string(),
            bytes_total: 4_000,
            bytes_free: 1_000,
        },
    ];
    let mut m = DiskMeasurementMap::new();
    read_diskspaces(10, &mut m, &disks);
    read_diskspaces(20, &mut m, &disks);
    assert_eq!(2, m.len());
    assert_eq!(vec![10, 20], timestamps_of(&m, "/"));
    assert_eq!(dm(20, 4_000, 1_000), *m.get(&"/srv".to_string()).unwrap().back().unwrap());
}

#[test]
fn measure_local_disks_forgets_what_stopped_reporting() {
    let both = vec![
        DiskReading {
            mount_point: "/".to_string(),
            bytes_total: 100,
            bytes_free: 60,
        },
        DiskReading {
            mount_point: "/usb".to_string(),
            bytes_total: 4_000,
            bytes_free: 1_000,
        },
    ];
    let root_only = vec![DiskReading {
        mount_point: "/".to_string(),
        bytes_total: 100,
        bytes_free: 60,
    }];
    let mut m = DiskMeasurementMap::new();
    measure_local_disks(&mut m, 1_000_000, &both);
    assert_eq!(2, m.len());
    measure_local_disks(&mut m, 1_000_000 + RETENTION_HORIZON - 1, &root_only);
    assert_eq!(2, m.len());
    measure_local_disks(&mut m, 1_000_000 + RETENTION_HORIZON, &root_only);
    assert_eq!(vec!["/".to_string()], m.keys());
    assert_eq!(3, m.get(&"/".to_string()).unwrap().len());
}

#[test]
fn measure_local_disks_survives_a_clock_that_reads_zero() {
    let disks = vec![DiskReading {
        mount_point: "/".to_string(),
        bytes_total: 100,
        bytes_free: 60,
    }];
    let mut m = DiskMeasurementMap::new();
    measure_local_disks(&mut m, 1_000_000, &disks);
    measure_local_disks(&mut m, 0, &disks);
    assert_eq!(vec![1_000_000, 0], timestamps_of(&m, "/"));
}

#[test]
fn retention_horizon_is_a_day() {
    assert_eq!(24 * 60 * 60, RETENTION_HORIZON);
    assert_eq!(500, KEEP);
}

#[test]
fn latest_readings_copies_the_newest_of_each() {
    let mut m = DiskMeasurementMap::new();
    assert!(latest_readings(&m).is_empty());
    add_diskmeasurement(&mut m, "/".to_string(), dm(1, 100, 50));
    add_diskmeasurement(&mut m, "/".to_string(), dm(2, 100, 40));
    add_diskmeasurement(&mut m, "/home".to_string(), dm(1, 200, 20));
    let mut rows = latest_readings(&m);
    rows.sort_by(|a, b| a.0.cmp(&b.0));
    assert_eq!(
        vec![
            ("/".to_string(), Some(dm(2, 100, 40))),
            ("/home".to_string(), Some(dm(1, 200, 20))),
        ],
        rows
    );
    let emptied = create_filtered_copy_dms(&m, 3);
    let mut rows = latest_readings(&emptied);
    rows.sort_by(|a, b| a.0.cmp(&b.0));
    assert_eq!(vec![("/".to_string(), None), ("/home".to_string(), None)], rows);
}
