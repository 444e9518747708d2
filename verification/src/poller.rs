//! One round of local sampling: record what the disks report, then let
//! go of the mount points that have stopped reporting.

use crate::measurement::DiskMeasurement;
use crate::series::lemma_appended_bounded;
use crate::store::{
    add_diskmeasurement, all_bounded, evict_stale, evicted, series_of, stale, upserted,
    DiskMeasurementMap,
};
use vstd::prelude::*;

verus! {

/// Seconds without a fresh reading after which a mount point is forgotten.
pub const RETENTION_HORIZON: u64 = 86400;

/// What the platform reports of one mounted filesystem.
pub struct DiskReading {
    pub mount_point: String,
    pub bytes_total: u64,
    pub bytes_free: u64,
}

/// The reading of `disk`, stamped with `now`.
pub open spec fn stamped(now: u64, disk: DiskReading) -> DiskMeasurement {
    DiskMeasurement { ts: now, bytes_total: disk.bytes_total, bytes_free: disk.bytes_free }
}

/// The store after the readings of `disks`, all stamped with `now`, have
/// been recorded one after the other.
pub open spec fn recorded(
    m: Map<Seq<char>, Seq<DiskMeasurement>>,
    now: u64,
    disks: Seq<DiskReading>,
) -> Map<Seq<char>, Seq<DiskMeasurement>>
    decreases disks.len(),
{
    if disks.len() == 0 {
        m
    } else {
        upserted(
            recorded(m, now, disks.drop_last()),
            disks.last().mount_point@,
            stamped(now, disks.last()),
        )
    }
}

/// The store after one round of sampling at `now`.
pub open spec fn polled(
    m: Map<Seq<char>, Seq<DiskMeasurement>>,
    now: u64,
    disks: Seq<DiskReading>,
) -> Map<Seq<char>, Seq<DiskMeasurement>> {
    evicted(recorded(m, now, disks), now, RETENTION_HORIZON)
}

/// Names the mount point of `disk` and stamps its reading with `now`.
pub fn read_diskspace(now: u64, disk: &DiskReading) -> (r: (String, DiskMeasurement))
    ensures
        r.0@ == disk.mount_point@,
        r.1 == stamped(now, *disk),
{
    let dm = DiskMeasurement {
        ts: now,
        bytes_total: disk.bytes_total,
        bytes_free: disk.bytes_free,
    };
    (disk.mount_point.clone(), dm)
}

/// Records the reading of every disk in `disks`, stamped with `now`.
pub fn read_diskspaces(now: u64, m: &mut DiskMeasurementMap, disks: &Vec<DiskReading>)
    ensures
        final(m)@ == recorded(old(m)@, now, disks@),
        all_bounded(final(m)@),
{
    let n: usize = disks.len();
    let mut i: usize = 0;
    while i < n
        invariant
            0 <= i <= n,
            n == disks@.len(),
            m@ == recorded(old(m)@, now, disks@.take(i as int)),
        decreases n - i,
    {
        let (mnt_name, dm) = read_diskspace(now, &disks[i]);
        proof {
            assert(disks@.take(i + 1).drop_last() =~= disks@.take(i as int));
        }
        add_diskmeasurement(m, mnt_name, dm);
        i += 1;
    }
    assert(disks@.take(n as int) =~= disks@);
    m.bounded();
}

/// One round of sampling: records what `disks` report at `now`, then
/// forgets the mount points that have had nothing fresh for
/// [`RETENTION_HORIZON`] seconds.
pub fn measure_local_disks(m: &mut DiskMeasurementMap, now: u64, disks: &Vec<DiskReading>)
    ensures
        final(m)@ == polled(old(m)@, now, disks@),
        all_bounded(final(m)@),
{
    read_diskspaces(now, m, disks);
    evict_stale(m, now, RETENTION_HORIZON);
}

/// Some disk of `disks` is mounted at `k`.
pub open spec fn reported(disks: Seq<DiskReading>, k: Seq<char>) -> bool {
    exists|i: int| 0 <= i < disks.len() && (#[trigger] disks[i]).mount_point@ == k
}

/// What recording a round of readings does to each mount point: one that
/// reported is known afterwards, and its newest reading is of this round;
/// one that did not is as it was.
pub proof fn lemma_recorded(
    m: Map<Seq<char>, Seq<DiskMeasurement>>,
    now: u64,
    disks: Seq<DiskReading>,
)
    ensures
        forall|k: Seq<char>|
            reported(disks, k) ==> #[trigger] recorded(m, now, disks).contains_key(k) && recorded(
                m,
                now,
                disks,
            )[k].len() > 0 && recorded(m, now, disks)[k].last().ts == now,
        forall|k: Seq<char>|
            !reported(disks, k) ==> (#[trigger] recorded(m, now, disks).contains_key(k)
                <==> m.contains_key(k)),
        forall|k: Seq<char>|
            !reported(disks, k) && m.contains_key(k) ==> #[trigger] recorded(m, now, disks)[k]
                == m[k],
    decreases disks.len(),
{
    if disks.len() > 0 {
        let init = disks.drop_last();
        let last = disks.last();
        let before = recorded(m, now, init);
        let after = recorded(m, now, disks);
        lemma_recorded(m, now, init);
        assert forall|k: Seq<char>| reported(disks, k) <==> reported(init, k) || last.mount_point@
            == k by {
            if reported(disks, k) {
                let i = choose|i: int|
                    0 <= i < disks.len() && (#[trigger] disks[i]).mount_point@ == k;
                if i < init.len() {
                    assert(init[i] == disks[i]);
                }
            }
            if reported(init, k) {
                let i = choose|i: int| 0 <= i < init.len() && (#[trigger] init[i]).mount_point@ == k;
                assert(disks[i] == init[i]);
            }
            if last.mount_point@ == k {
                assert(disks[disks.len() - 1] == last);
            }
        }
        assert forall|k: Seq<char>| reported(disks, k) implies #[trigger] after.contains_key(k)
            && after[k].len() > 0 && after[k].last().ts == now by {
            if last.mount_point@ == k {
                lemma_appended_bounded(series_of(before, k), stamped(now, last));
            } else {
                assert(before.contains_key(k));
            }
        }
        assert forall|k: Seq<char>| !reported(disks, k) implies (#[trigger] after.contains_key(k)
            <==> m.contains_key(k)) by {
            assert(before.contains_key(k) <==> m.contains_key(k));
        }
        assert forall|k: Seq<char>| !reported(disks, k) && m.contains_key(k) implies #[trigger] after[k]
            == m[k] by {
            assert(before[k] == m[k]);
        }
    } else {
        assert forall|k: Seq<char>| !reported(disks, k) by {}
    }
}

/// After a round of sampling every mount point that reported is known,
/// with a reading of this round for its newest, and one that did not
/// report is still known exactly if its newest reading is younger than the
/// horizon.
pub proof fn lemma_polled(m: Map<Seq<char>, Seq<DiskMeasurement>>, now: u64, disks: Seq<DiskReading>)
    ensures
        forall|k: Seq<char>|
            reported(disks, k) ==> #[trigger] polled(m, now, disks).contains_key(k) && polled(
                m,
                now,
                disks,
            )[k].len() > 0 && polled(m, now, disks)[k].last().ts == now,
        forall|k: Seq<char>|
            !reported(disks, k) ==> (#[trigger] polled(m, now, disks).contains_key(k)
                <==> m.contains_key(k) && !stale(m[k], now, RETENTION_HORIZON)),
        forall|k: Seq<char>|
            !reported(disks, k) && #[trigger] polled(m, now, disks).contains_key(k) ==> polled(
                m,
                now,
                disks,
            )[k] == m[k],
{
    lemma_recorded(m, now, disks);
    let r = recorded(m, now, disks);
    let p = polled(m, now, disks);
    assert forall|k: Seq<char>| reported(disks, k) implies #[trigger] p.contains_key(k)
        && p[k].len() > 0 && p[k].last().ts == now by {
        assert(r.contains_key(k));
    }
    assert forall|k: Seq<char>| !reported(disks, k) implies (#[trigger] p.contains_key(k)
        <==> m.contains_key(k) && !stale(m[k], now, RETENTION_HORIZON)) by {
        assert(r.contains_key(k) <==> m.contains_key(k));
        if m.contains_key(k) {
            assert(r[k] == m[k]);
        }
    }
    assert forall|k: Seq<char>| !reported(disks, k) && #[trigger] p.contains_key(k) implies p[k]
        == m[k] by {
        assert(r.contains_key(k) <==> m.contains_key(k));
        assert(r[k] == m[k]);
    }
}

} // verus!
