//! The local store: one bounded series per mount point.

use crate::assoc::{
    lemma_paired_at, lemma_paired_key, lemma_paired_len, lemma_paired_push, lemma_paired_remove,
    lemma_paired_update, paired,
};
use crate::measurement::DiskMeasurement;
use crate::series::{appended, filter_since, push_measurement, since, KEEP};
use std::collections::VecDeque;
use vstd::prelude::*;

verus! {

/// One mount point with its history.
struct SeriesEntry {
    key: String,
    series: VecDeque<DiskMeasurement>,
}

/// Mount point to series. A mount point occurs once, and no series is ever
/// longer than [`KEEP`].
pub struct DiskMeasurementMap {
    entries: Vec<SeriesEntry>,
}

spec fn keys_of(es: Seq<SeriesEntry>) -> Seq<Seq<char>> {
    es.map_values(|e: SeriesEntry| e.key@)
}

spec fn series_in(es: Seq<SeriesEntry>) -> Seq<Seq<DiskMeasurement>> {
    es.map_values(|e: SeriesEntry| e.series@)
}

spec fn has_key(es: Seq<SeriesEntry>, k: Seq<char>) -> bool {
    keys_of(es).contains(k)
}

spec fn position(es: Seq<SeriesEntry>, k: Seq<char>) -> int {
    keys_of(es).index_of(k)
}

spec fn distinct_keys(es: Seq<SeriesEntry>) -> bool {
    keys_of(es).no_duplicates()
}

spec fn entries_view(es: Seq<SeriesEntry>) -> Map<Seq<char>, Seq<DiskMeasurement>> {
    paired(keys_of(es), series_in(es))
}

impl View for DiskMeasurementMap {
    type V = Map<Seq<char>, Seq<DiskMeasurement>>;

    closed spec fn view(&self) -> Self::V {
        entries_view(self.entries@)
    }
}

/// The series of `k`, or the empty one where `k` is unknown.
pub open spec fn series_of(m: Map<Seq<char>, Seq<DiskMeasurement>>, k: Seq<char>) -> Seq<
    DiskMeasurement,
> {
    if m.contains_key(k) {
        m[k]
    } else {
        Seq::empty()
    }
}

/// The store after `dm` has been recorded for the mount point `k`.
pub open spec fn upserted(
    m: Map<Seq<char>, Seq<DiskMeasurement>>,
    k: Seq<char>,
    dm: DiskMeasurement,
) -> Map<Seq<char>, Seq<DiskMeasurement>> {
    m.insert(k, appended(series_of(m, k), dm))
}

/// Every series has at most [`KEEP`] readings.
pub open spec fn all_bounded(m: Map<Seq<char>, Seq<DiskMeasurement>>) -> bool {
    forall|k: Seq<char>| m.contains_key(k) ==> (#[trigger] m[k]).len() <= KEEP
}

/// The newest reading of a series, if it has one.
pub open spec fn latest(s: Seq<DiskMeasurement>) -> Option<DiskMeasurement> {
    if s.len() > 0 {
        Some(s.last())
    } else {
        None
    }
}

/// The series has a reading, and its newest one was taken after `t`.
pub open spec fn fresh_after(s: Seq<DiskMeasurement>, t: u64) -> bool {
    s.len() > 0 && s.last().ts > t
}

/// The series has aged out at `now`: it is empty, or its newest reading is
/// at least `horizon` seconds old.
pub open spec fn stale(s: Seq<DiskMeasurement>, now: u64, horizon: u64) -> bool {
    s.len() == 0 || s.last().ts + horizon <= now
}

/// The store without the series that have no reading later than `t`. What
/// stays is untouched.
pub open spec fn only_fresh(m: Map<Seq<char>, Seq<DiskMeasurement>>, t: u64) -> Map<
    Seq<char>,
    Seq<DiskMeasurement>,
> {
    Map::new(|k: Seq<char>| m.contains_key(k) && fresh_after(m[k], t), |k: Seq<char>| m[k])
}

/// The store without the series that have aged out at `now`. What stays is
/// untouched.
pub open spec fn evicted(m: Map<Seq<char>, Seq<DiskMeasurement>>, now: u64, horizon: u64) -> Map<
    Seq<char>,
    Seq<DiskMeasurement>,
> {
    Map::new(
        |k: Seq<char>| m.contains_key(k) && !stale(m[k], now, horizon),
        |k: Seq<char>| m[k],
    )
}

proof fn lemma_distinct(es: Seq<SeriesEntry>, i: int, j: int)
    requires
        distinct_keys(es),
        0 <= i < es.len(),
        0 <= j < es.len(),
        i != j,
    ensures
        es[i].key@ != es[j].key@,
{
    assert(keys_of(es)[i] != keys_of(es)[j]);
}

proof fn lemma_has_key(es: Seq<SeriesEntry>, k: Seq<char>)
    ensures
        has_key(es, k) <==> exists|i: int| 0 <= i < es.len() && es[i].key@ == k,
{
    if has_key(es, k) {
        let i = keys_of(es).index_of(k);
        assert(0 <= i < es.len() && keys_of(es)[i] == k);
        assert(es[i].key@ == k);
    }
    if exists|i: int| 0 <= i < es.len() && es[i].key@ == k {
        let i = choose|i: int| 0 <= i < es.len() && es[i].key@ == k;
        assert(keys_of(es)[i] == k);
    }
}

proof fn lemma_view_at(es: Seq<SeriesEntry>, i: int)
    requires
        distinct_keys(es),
        0 <= i < es.len(),
    ensures
        has_key(es, es[i].key@),
        position(es, es[i].key@) == i,
        entries_view(es).contains_key(es[i].key@),
        entries_view(es)[es[i].key@] == es[i].series@,
{
    lemma_paired_at(keys_of(es), series_in(es), i);
}

proof fn lemma_view_key(es: Seq<SeriesEntry>, k: Seq<char>)
    requires
        distinct_keys(es),
        entries_view(es).contains_key(k),
    ensures
        0 <= position(es, k) < es.len(),
        es[position(es, k)].key@ == k,
        entries_view(es)[k] == es[position(es, k)].series@,
{
    lemma_paired_key(keys_of(es), series_in(es), k);
}

proof fn lemma_view_push(es: Seq<SeriesEntry>, e: SeriesEntry)
    requires
        distinct_keys(es),
        !has_key(es, e.key@),
    ensures
        distinct_keys(es.push(e)),
        entries_view(es.push(e)) == entries_view(es).insert(e.key@, e.series@),
{
    assert(keys_of(es.push(e)) =~= keys_of(es).push(e.key@));
    assert(series_in(es.push(e)) =~= series_in(es).push(e.series@));
    lemma_paired_push(keys_of(es), series_in(es), e.key@, e.series@);
}

proof fn lemma_view_update(es: Seq<SeriesEntry>, i: int, e: SeriesEntry)
    requires
        distinct_keys(es),
        0 <= i < es.len(),
        e.key@ == es[i].key@,
    ensures
        distinct_keys(es.update(i, e)),
        entries_view(es.update(i, e)) == entries_view(es).insert(e.key@, e.series@),
{
    assert(keys_of(es.update(i, e)) =~= keys_of(es));
    assert(series_in(es.update(i, e)) =~= series_in(es).update(i, e.series@));
    lemma_paired_update(keys_of(es), series_in(es), i, e.series@);
}

proof fn lemma_view_remove(es: Seq<SeriesEntry>, i: int)
    requires
        distinct_keys(es),
        0 <= i < es.len(),
    ensures
        distinct_keys(es.remove(i)),
        entries_view(es.remove(i)) == entries_view(es).remove(es[i].key@),
{
    assert(keys_of(es.remove(i)) =~= keys_of(es).remove(i));
    assert(series_in(es.remove(i)) =~= series_in(es).remove(i));
    lemma_paired_remove(keys_of(es), series_in(es), i);
}

proof fn lemma_all_bounded(es: Seq<SeriesEntry>)
    requires
        distinct_keys(es),
        forall|i: int| 0 <= i < es.len() ==> (#[trigger] es[i]).series@.len() <= KEEP,
    ensures
        all_bounded(entries_view(es)),
{
    assert forall|k: Seq<char>| entries_view(es).contains_key(k) implies (#[trigger] entries_view(
        es,
    )[k]).len() <= KEEP by {
        lemma_view_key(es, k);
    }
}

proof fn lemma_view_len(es: Seq<SeriesEntry>)
    requires
        distinct_keys(es),
    ensures
        entries_view(es).dom().finite(),
        entries_view(es).dom().len() == es.len(),
{
    lemma_paired_len(keys_of(es), series_in(es));
}

fn find(entries: &Vec<SeriesEntry>, key: &String) -> (r: Option<usize>)
    ensures
        match r {
            Some(i) => i < entries@.len() && entries@[i as int].key@ == key@,
            None => !has_key(entries@, key@),
        },
{
    let n: usize = entries.len();
    let mut i: usize = 0;
    while i < n
        invariant
            0 <= i <= n,
            n == entries@.len(),
            forall|j: int| 0 <= j < i ==> entries@[j].key@ != key@,
        decreases n - i,
    {
        if entries[i].key == *key {
            return Some(i);
        }
        i += 1;
    }
    None
}

impl DiskMeasurementMap {
    #[verifier::type_invariant]
    spec fn inv(&self) -> bool {
        &&& distinct_keys(self.entries@)
        &&& forall|i: int| 0 <= i < self.entries@.len() ==> (#[trigger] self.entries@[i]).series@.len() <= KEEP
    }

    /// A store without any mount point.
    pub fn new() -> (m: DiskMeasurementMap)
        ensures
            m@ == Map::<Seq<char>, Seq<DiskMeasurement>>::empty(),
            all_bounded(m@),
    {
        let m = DiskMeasurementMap { entries: Vec::new() };
        assert(m@ =~= Map::<Seq<char>, Seq<DiskMeasurement>>::empty());
        m
    }

    /// Moves the entries out, leaving the store empty for as long as they
    /// are worked on.
    fn take_entries(&mut self) -> (es: Vec<SeriesEntry>)
        ensures
            es == old(self).entries,
            final(self).entries@.len() == 0,
    {
        let mut es: Vec<SeriesEntry> = Vec::new();
        core::mem::swap(&mut self.entries, &mut es);
        es
    }

    /// Recalls that no series of a store is ever longer than [`KEEP`],
    /// whatever was done to the store. Does nothing at run time.
    pub fn bounded(&self)
        ensures
            all_bounded(self@),
    {
        proof {
            use_type_invariant(self);
            lemma_all_bounded(self.entries@);
        }
    }

    /// The number of known mount points.
    pub fn len(&self) -> (n: usize)
        ensures
            self@.dom().finite(),
            n == self@.len(),
    {
        proof {
            use_type_invariant(self);
            lemma_view_len(self.entries@);
        }
        self.entries.len()
    }

    /// Whether the mount point is known.
    pub fn contains_key(&self, key: &String) -> (r: bool)
        ensures
            r == self@.contains_key(key@),
    {
        proof {
            lemma_has_key(self.entries@, key@);
        }
        find(&self.entries, key).is_some()
    }

    /// The known mount points, each once, in no particular order.
    pub fn keys(&self) -> (keys: Vec<String>)
        ensures
            forall|i: int, j: int| 0 <= i < j < keys@.len() ==> keys@[i]@ != keys@[j]@,
            forall|i: int| 0 <= i < keys@.len() ==> self@.contains_key(#[trigger] keys@[i]@),
            forall|k: Seq<char>|
                self@.contains_key(k) ==> exists|i: int| 0 <= i < keys@.len() && keys@[i]@ == k,
    {
        proof {
            use_type_invariant(self);
        }
        let mut keys: Vec<String> = Vec::new();
        let n: usize = self.entries.len();
        let mut i: usize = 0;
        while i < n
            invariant
                0 <= i <= n,
                n == self.entries@.len(),
                keys@.len() == i,
                forall|j: int| 0 <= j < i ==> (#[trigger] keys@[j])@ == self.entries@[j].key@,
            decreases n - i,
        {
            keys.push(self.entries[i].key.clone());
            i += 1;
        }
        proof {
            assert forall|a: int, b: int| 0 <= a < b < keys@.len() implies keys@[a]@ != keys@[b]@ by {
                lemma_distinct(self.entries@, a, b);
            }
            assert forall|j: int| 0 <= j < keys@.len() implies self@.contains_key(
                #[trigger] keys@[j]@,
            ) by {
                lemma_view_at(self.entries@, j);
            }
            assert forall|k: Seq<char>| self@.contains_key(k) implies exists|j: int|
                0 <= j < keys@.len() && keys@[j]@ == k by {
                let p = position(self.entries@, k);
                lemma_view_key(self.entries@, k);
                assert(keys@[p]@ == k);
            }
        }
        keys
    }

    /// The series of one mount point.
    pub fn get(&self, key: &String) -> (r: Option<&VecDeque<DiskMeasurement>>)
        ensures
            match r {
                Some(s) => self@.contains_key(key@) && s@ == self@[key@] && s@.len() <= KEEP,
                None => !self@.contains_key(key@),
            },
    {
        proof {
            use_type_invariant(self);
        }
        match find(&self.entries, key) {
            Some(i) => {
                proof {
                    lemma_view_at(self.entries@, i as int);
                }
                Some(&self.entries[i].series)
            },
            None => None,
        }
    }
}

/// Records `dm` for the mount point `mnt_name`, which need not be known yet.
pub fn add_diskmeasurement(m: &mut DiskMeasurementMap, mnt_name: String, dm: DiskMeasurement)
    ensures
        final(m)@ == upserted(old(m)@, mnt_name@, dm),
        final(m)@[mnt_name@].len() <= KEEP,
        all_bounded(final(m)@),
{
    proof {
        use_type_invariant(&*m);
    }
    let mut entries = m.take_entries();
    let ghost before = entries@;
    match find(&entries, &mnt_name) {
        Some(i) => {
            proof {
                lemma_view_at(before, i as int);
            }
            push_measurement(&mut entries[i].series, dm);
            proof {
                assert(entries@ =~= before.update(i as int, entries@[i as int]));
                lemma_view_update(before, i as int, entries@[i as int]);
            }
        },
        None => {
            let mut series: VecDeque<DiskMeasurement> = VecDeque::new();
            push_measurement(&mut series, dm);
            let entry = SeriesEntry { key: mnt_name, series };
            proof {
                lemma_view_push(before, entry);
            }
            entries.push(entry);
        },
    }
    proof {
        lemma_all_bounded(entries@);
    }
    m.entries = entries;
}

/// A copy of the store in which each series holds only the readings taken at
/// `threshold` or later. No mount point is lost, though its series may come
/// out empty.
pub fn create_filtered_copy_dms(orig: &DiskMeasurementMap, threshold: u64) -> (copy:
    DiskMeasurementMap)
    ensures
        copy@ == orig@.map_values(|s: Seq<DiskMeasurement>| since(s, threshold)),
        all_bounded(copy@),
{
    proof {
        use_type_invariant(orig);
    }
    let ghost f = |s: Seq<DiskMeasurement>| since(s, threshold);
    let mut entries: Vec<SeriesEntry> = Vec::new();
    let n: usize = orig.entries.len();
    let mut i: usize = 0;
    while i < n
        invariant
            0 <= i <= n,
            n == orig.entries@.len(),
            f == (|s: Seq<DiskMeasurement>| since(s, threshold)),
            distinct_keys(orig.entries@),
            distinct_keys(entries@),
            entries@.len() == i,
            forall|j: int| 0 <= j < i ==> (#[trigger] entries@[j]).key@ == orig.entries@[j].key@,
            forall|j: int| 0 <= j < i ==> (#[trigger] entries@[j]).series@ == since(orig.entries@[j].series@, threshold),
            forall|j: int| 0 <= j < i ==> (#[trigger] entries@[j]).series@.len() <= KEEP,
            forall|j: int| 0 <= j < n ==> (#[trigger] orig.entries@[j]).series@.len() <= KEEP,
        decreases n - i,
    {
        let key = orig.entries[i].key.clone();
        let series = filter_since(&orig.entries[i].series, threshold);
        let entry = SeriesEntry { key, series };
        proof {
            assert(!has_key(entries@, entry.key@)) by {
                lemma_has_key(entries@, entry.key@);
                if has_key(entries@, entry.key@) {
                    let j = choose|j: int| 0 <= j < entries@.len() && entries@[j].key@ == entry.key@;
                    lemma_distinct(orig.entries@, j, i as int);
                }
            }
            lemma_view_push(entries@, entry);
        }
        entries.push(entry);
        i += 1;
    }
    let copy = DiskMeasurementMap { entries };
    proof {
        let a = copy@;
        let b = orig@.map_values(f);
        assert forall|k: Seq<char>| a.contains_key(k) == b.contains_key(k) by {
            lemma_has_key(copy.entries@, k);
            lemma_has_key(orig.entries@, k);
            if has_key(copy.entries@, k) {
                let j = choose|j: int| 0 <= j < copy.entries@.len() && copy.entries@[j].key@ == k;
                assert(0 <= j < orig.entries@.len() && orig.entries@[j].key@ == k);
            }
            if has_key(orig.entries@, k) {
                let j = choose|j: int| 0 <= j < orig.entries@.len() && orig.entries@[j].key@ == k;
                assert(0 <= j < copy.entries@.len() && copy.entries@[j].key@ == k);
            }
        }
        assert forall|k: Seq<char>| a.contains_key(k) implies a[k] == b[k] by {
            lemma_view_key(copy.entries@, k);
            let p = position(copy.entries@, k);
            lemma_view_at(orig.entries@, p);
        }
        assert(a =~= b);
        lemma_all_bounded(copy.entries@);
    }
    copy
}

/// The newest reading of every mount point, one row each, in no particular
/// order. A mount point without readings gets a row without one.
pub fn get_recent_measurements(hm: &DiskMeasurementMap) -> (rows: Vec<
    (String, Option<&DiskMeasurement>),
>)
    ensures
        forall|i: int, j: int| 0 <= i < j < rows@.len() ==> rows@[i].0@ != rows@[j].0@,
        forall|i: int|
            0 <= i < rows@.len() ==> hm@.contains_key((#[trigger] rows@[i]).0@) && match rows@[i].1 {
                Some(dm) => latest(hm@[rows@[i].0@]) == Some(*dm),
                None => latest(hm@[rows@[i].0@]) is None,
            },
        forall|k: Seq<char>|
            hm@.contains_key(k) ==> exists|i: int| 0 <= i < rows@.len() && rows@[i].0@ == k,
{
    proof {
        use_type_invariant(hm);
    }
    let mut rows: Vec<(String, Option<&DiskMeasurement>)> = Vec::new();
    let n: usize = hm.entries.len();
    let mut i: usize = 0;
    while i < n
        invariant
            0 <= i <= n,
            n == hm.entries@.len(),
            distinct_keys(hm.entries@),
            rows@.len() == i,
            forall|j: int| 0 <= j < i ==> (#[trigger] rows@[j]).0@ == hm.entries@[j].key@,
            forall|j: int|
                0 <= j < i ==> match (#[trigger] rows@[j]).1 {
                    Some(dm) => latest(hm.entries@[j].series@) == Some(*dm),
                    None => latest(hm.entries@[j].series@) is None,
                },
        decreases n - i,
    {
        let series = &hm.entries[i].series;
        let len: usize = series.len();
        let newest: Option<&DiskMeasurement> = if len > 0 {
            Some(&series[len - 1])
        } else {
            None
        };
        rows.push((hm.entries[i].key.clone(), newest));
        i += 1;
    }
    proof {
        assert forall|a: int, b: int| 0 <= a < b < rows@.len() implies rows@[a].0@ != rows@[b].0@ by {
            lemma_distinct(hm.entries@, a, b);
        }
        assert forall|j: int| 0 <= j < rows@.len() implies hm@.contains_key(
            (#[trigger] rows@[j]).0@,
        ) && match rows@[j].1 {
            Some(dm) => latest(hm@[rows@[j].0@]) == Some(*dm),
            None => latest(hm@[rows@[j].0@]) is None,
        } by {
            lemma_view_at(hm.entries@, j);
        }
        assert forall|k: Seq<char>| hm@.contains_key(k) implies exists|j: int|
            0 <= j < rows@.len() && rows@[j].0@ == k by {
            lemma_view_key(hm.entries@, k);
            let p = position(hm.entries@, k);
            assert(rows@[p].0@ == k);
        }
    }
    rows
}

/// The newest reading of every mount point, one row each, in no particular
/// order, as values of their own: what a caller keeps once the store is
/// out of its hands. A mount point without readings gets a row without one.
pub fn latest_readings(hm: &DiskMeasurementMap) -> (rows: Vec<(String, Option<DiskMeasurement>)>)
    ensures
        forall|i: int, j: int| 0 <= i < j < rows@.len() ==> rows@[i].0@ != rows@[j].0@,
        forall|i: int|
            0 <= i < rows@.len() ==> hm@.contains_key((#[trigger] rows@[i]).0@) && rows@[i].1
                == latest(hm@[rows@[i].0@]),
        forall|k: Seq<char>|
            hm@.contains_key(k) ==> exists|i: int| 0 <= i < rows@.len() && rows@[i].0@ == k,
{
    let borrowed = get_recent_measurements(hm);
    let mut rows: Vec<(String, Option<DiskMeasurement>)> = Vec::new();
    let n: usize = borrowed.len();
    let mut i: usize = 0;
    while i < n
        invariant
            0 <= i <= n,
            n == borrowed@.len(),
            rows@.len() == i,
            forall|j: int| 0 <= j < i ==> (#[trigger] rows@[j]).0@ == borrowed@[j].0@,
            forall|j: int|
                0 <= j < i ==> (#[trigger] rows@[j]).1 == match borrowed@[j].1 {
                    Some(dm) => Some(*dm),
                    None => None,
                },
        decreases n - i,
    {
        let newest: Option<DiskMeasurement> = match borrowed[i].1 {
            Some(dm) => Some(*dm),
            None => None,
        };
        rows.push((borrowed[i].0.clone(), newest));
        i += 1;
    }
    proof {
        assert forall|a: int, b: int| 0 <= a < b < rows@.len() implies rows@[a].0@ != rows@[b].0@ by {
            assert(borrowed@[a].0@ != borrowed@[b].0@);
        }
        assert forall|j: int| 0 <= j < rows@.len() implies hm@.contains_key(
            (#[trigger] rows@[j]).0@,
        ) && rows@[j].1 == latest(hm@[rows@[j].0@]) by {
            assert(hm@.contains_key(borrowed@[j].0@));
        }
        assert forall|k: Seq<char>| hm@.contains_key(k) implies exists|j: int|
            0 <= j < rows@.len() && rows@[j].0@ == k by {
            let j = choose|j: int| 0 <= j < borrowed@.len() && borrowed@[j].0@ == k;
            assert(rows@[j].0@ == k);
        }
    }
    rows
}

/// The series goes when eviction runs with this cutoff: it is empty, or
/// there is a cutoff and its newest reading is not later than that.
spec fn expired(s: Seq<DiskMeasurement>, cutoff: Option<u64>) -> bool {
    s.len() == 0 || match cutoff {
        Some(t) => s.last().ts <= t,
        None => false,
    }
}

/// The store without its expired series. What stays is untouched.
spec fn without_expired(
    m: Map<Seq<char>, Seq<DiskMeasurement>>,
    cutoff: Option<u64>,
) -> Map<Seq<char>, Seq<DiskMeasurement>> {
    Map::new(
        |k: Seq<char>| m.contains_key(k) && !expired(m[k], cutoff),
        |k: Seq<char>| m[k],
    )
}

fn is_expired(series: &VecDeque<DiskMeasurement>, cutoff: Option<u64>) -> (r: bool)
    ensures
        r == expired(series@, cutoff),
{
    let len: usize = series.len();
    if len == 0 {
        true
    } else {
        match cutoff {
            Some(t) => series[len - 1].ts <= t,
            None => false,
        }
    }
}

fn evict(m: &mut DiskMeasurementMap, cutoff: Option<u64>)
    ensures
        final(m)@ == without_expired(old(m)@, cutoff),
{
    proof {
        use_type_invariant(&*m);
    }
    let mut entries = m.take_entries();
    let ghost orig = entries_view(entries@);
    let mut i: usize = 0;
    while i < entries.len()
        invariant
            0 <= i <= entries@.len(),
            distinct_keys(entries@),
            forall|j: int| 0 <= j < entries@.len() ==> (#[trigger] entries@[j]).series@.len() <= KEEP,
            forall|j: int| 0 <= j < i ==> !expired((#[trigger] entries@[j]).series@, cutoff),
            forall|k: Seq<char>| #[trigger]
                entries_view(entries@).contains_key(k) ==> orig.contains_key(k) && entries_view(
                    entries@,
                )[k] == orig[k],
            forall|k: Seq<char>|
                orig.contains_key(k) && !expired(orig[k], cutoff) ==> #[trigger] entries_view(
                    entries@,
                ).contains_key(k),
        decreases entries@.len() - i,
    {
        proof {
            lemma_view_at(entries@, i as int);
        }
        if is_expired(&entries[i].series, cutoff) {
            proof {
                lemma_view_remove(entries@, i as int);
            }
            let gone = entries.remove(i);
        } else {
            i += 1;
        }
    }
    proof {
        let a = entries_view(entries@);
        let b = without_expired(orig, cutoff);
        assert forall|k: Seq<char>| a.contains_key(k) implies b.contains_key(k) && a[k] == b[k] by {
            lemma_view_key(entries@, k);
            lemma_view_at(entries@, position(entries@, k));
        }
        assert(a =~= b);
    }
    m.entries = entries;
}

/// Forgets every mount point whose newest reading is not later than
/// `measurements_older_than`, and every mount point without readings.
pub fn remove_old_mountpoints(m: &mut DiskMeasurementMap, measurements_older_than: u64)
    ensures
        final(m)@ == only_fresh(old(m)@, measurements_older_than),
        all_bounded(final(m)@),
{
    evict(m, Some(measurements_older_than));
    assert(m@ =~= only_fresh(old(m)@, measurements_older_than));
    m.bounded();
}

/// Forgets every mount point that has aged out at `now`: a series goes as a
/// whole once its newest reading is `horizon` seconds old, whatever the age
/// of its other readings, and a series without readings goes at once.
/// While the clock reads less than `horizon`, no reading is old enough.
pub fn evict_stale(m: &mut DiskMeasurementMap, now: u64, horizon: u64)
    ensures
        final(m)@ == evicted(old(m)@, now, horizon),
        all_bounded(final(m)@),
{
    let cutoff: Option<u64> = if now >= horizon {
        Some(now - horizon)
    } else {
        None
    };
    evict(m, cutoff);
    assert(m@ =~= evicted(old(m)@, now, horizon));
    m.bounded();
}

} // verus!
