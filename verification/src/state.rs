//! The state that the pollers and the pages share: both stores, each behind
//! its own lock, and the name and version of this instance.
//!
//! Every access takes the store's lock for itself alone, readers too, and
//! holds it for no longer than the change or the copy takes. What a caller
//! gets is a copy, so nothing is formatted or sent while a lock is held.
//! A store goes back under its lock only as a change has left it, whole:
//! no reader meets a change half done, nor a series longer than `KEEP`.
//!
//! The two stores never wait for each other: no access takes both locks.

use crate::measurement::DiskMeasurement;
use crate::poller::{measure_local_disks, DiskReading};
use crate::remote::{record_remote, PeerRow, RemoteMeasurementMap};
use crate::store::{all_bounded, create_filtered_copy_dms, latest_readings, DiskMeasurementMap};
use std::sync::Arc;
use vstd::prelude::*;
use vstd::rwlock::{RwLock, RwLockPredicate};

verus! {

/// What the lock of the local store admits: stores without an overlong
/// series.
pub struct BoundedStore;

impl RwLockPredicate<DiskMeasurementMap> for BoundedStore {
    open spec fn inv(self, v: DiskMeasurementMap) -> bool {
        all_bounded(v@)
    }
}

/// What the lock of the remote store admits: any store.
pub struct AnyStore;

impl RwLockPredicate<RemoteMeasurementMap> for AnyStore {
    open spec fn inv(self, v: RemoteMeasurementMap) -> bool {
        true
    }
}

/// What the background loops and the pages of one instance share. Clones
/// share the stores.
#[derive(Clone)]
pub struct AppState {
    pub local_measurements: Arc<RwLock<DiskMeasurementMap, BoundedStore>>,
    pub remote_measurements: Arc<RwLock<RemoteMeasurementMap, AnyStore>>,
    pub hostname: String,
    pub versionstr: String,
}

impl AppState {
    /// The state of an instance that has not sampled anything yet.
    pub fn new(hostname: String, versionstr: String) -> (state: AppState)
        ensures
            state.hostname@ == hostname@,
            state.versionstr@ == versionstr@,
    {
        let local = DiskMeasurementMap::new();
        let remote = RemoteMeasurementMap::new();
        AppState {
            local_measurements: Arc::new(RwLock::new(local, Ghost(BoundedStore))),
            remote_measurements: Arc::new(RwLock::new(remote, Ghost(AnyStore))),
            hostname,
            versionstr,
        }
    }

    /// One round of local sampling, done under the lock of the local store:
    /// what [`measure_local_disks`] does to the store that it finds there.
    pub fn poll_local(&self, now: u64, disks: &Vec<DiskReading>) {
        let (mut store, handle) = self.local_measurements.acquire_write();
        measure_local_disks(&mut store, now, disks);
        handle.release_write(store);
    }

    /// A copy of the whole local store, as it is found under its lock.
    /// Whatever other threads do to the store meanwhile, the copy has no
    /// series longer than `KEEP`. Which store is found is not for this
    /// contract to say; at start it is the empty one.
    pub fn all(&self) -> (copy: DiskMeasurementMap)
        ensures
            all_bounded(copy@),
    {
        self.filtered_since(0)
    }

    /// A copy of the local store with the readings taken at `threshold` or
    /// later: what [`create_filtered_copy_dms`] makes of the store that it
    /// finds under the lock.
    pub fn filtered_since(&self, threshold: u64) -> (copy: DiskMeasurementMap)
        ensures
            all_bounded(copy@),
            forall|k: Seq<char>, i: int|
                copy@.contains_key(k) && 0 <= i < copy@[k].len() ==> (#[trigger] copy@[k][i]).ts
                    >= threshold,
    {
        let (store, handle) = self.local_measurements.acquire_write();
        let copy = create_filtered_copy_dms(&store, threshold);
        handle.release_write(store);
        proof {
            assert forall|k: Seq<char>, i: int|
                copy@.contains_key(k) && 0 <= i < copy@[k].len() implies (#[trigger] copy@[k][i]).ts
                >= threshold by {
                let pred = |dm: DiskMeasurement| dm.ts >= threshold;
                store@[k].lemma_filter_pred(pred, i);
            }
        }
        copy
    }

    /// The newest reading of every local mount point, one row each, the
    /// snapshot that peers fetch: what [`latest_readings`] makes of the
    /// store that it finds under the lock.
    pub fn latest_per_key(&self) -> (rows: Vec<(String, Option<DiskMeasurement>)>)
        ensures
            forall|i: int, j: int| 0 <= i < j < rows@.len() ==> rows@[i].0@ != rows@[j].0@,
    {
        let (store, handle) = self.local_measurements.acquire_write();
        let rows = latest_readings(&store);
        handle.release_write(store);
        rows
    }

    /// Takes in the outcome of one attempt to fetch from the peer `remote`,
    /// under the lock of the remote store: what [`record_remote`] does to
    /// the store that it finds there.
    pub fn record_fetch(&self, remote: &String, fetched: Option<Vec<PeerRow>>) {
        let (mut store, handle) = self.remote_measurements.acquire_write();
        record_remote(&mut store, remote, fetched);
        handle.release_write(store);
    }

    /// A copy of the whole remote store: peer, mount point and reading,
    /// each pair of peer and mount point once. It is what
    /// [`RemoteMeasurementMap::rows`] makes of the store that it finds
    /// under the lock.
    pub fn all_remote(&self) -> (rows: Vec<((String, String), DiskMeasurement)>)
        ensures
            forall|i: int, j: int|
                0 <= i < j < rows@.len() ==> (rows@[i].0.0@, rows@[i].0.1@) != (
                    rows@[j].0.0@,
                    rows@[j].0.1@,
                ),
    {
        let (store, handle) = self.remote_measurements.acquire_write();
        let rows = store.rows();
        handle.release_write(store);
        rows
    }
}

} // verus!
