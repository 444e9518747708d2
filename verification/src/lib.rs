//! In-memory time series of disk-capacity samples, one bounded series per
//! mount point, with lossy compaction of near-duplicate readings.

pub mod assoc;
pub mod clock;
pub mod measurement;
pub mod negotiation;
pub mod poller;
pub mod query;
pub mod remote;
pub mod series;
pub mod state;
pub mod store;

pub use clock::{get_now, timestamp_of};
pub use measurement::DiskMeasurement;
pub use negotiation::{match_str, negotiate, Representation};
pub use poller::{
    measure_local_disks, read_diskspace, read_diskspaces, DiskReading, RETENTION_HORIZON,
};
pub use query::{measurements_for, series_summary, HomeParams};
pub use remote::{record_remote, PeerRow, RemoteMeasurementMap};
pub use series::{consolidate_similar, filter_since, push_measurement, KEEP};
pub use state::AppState;
pub use store::{
    add_diskmeasurement, create_filtered_copy_dms, evict_stale, get_recent_measurements,
    latest_readings, remove_old_mountpoints, DiskMeasurementMap,
};
