//! The remote store: the newest reading of every mount point of every peer,
//! as the peers last reported it. No history is kept.

use crate::assoc::{
    lemma_paired_at, lemma_paired_key, lemma_paired_len, lemma_paired_push, lemma_paired_remove,
    lemma_paired_update, paired,
};
use crate::measurement::DiskMeasurement;
use vstd::prelude::*;

verus! {

/// One row of a peer's answer: a mount point, its newest reading if the
/// peer has one, and two strings that only serve display.
pub type PeerRow = (String, Option<DiskMeasurement>, (String, String));

/// Peer and mount point, as contracts name an entry.
pub type RemoteKey = (Seq<char>, Seq<char>);

struct RemoteEntry {
    peer: String,
    mountpoint: String,
    dm: DiskMeasurement,
}

/// Peer and mount point to the newest reading. A pair occurs once.
pub struct RemoteMeasurementMap {
    entries: Vec<RemoteEntry>,
}

spec fn keys_of(es: Seq<RemoteEntry>) -> Seq<RemoteKey> {
    es.map_values(|e: RemoteEntry| (e.peer@, e.mountpoint@))
}

spec fn readings_in(es: Seq<RemoteEntry>) -> Seq<DiskMeasurement> {
    es.map_values(|e: RemoteEntry| e.dm)
}

spec fn entries_view(es: Seq<RemoteEntry>) -> Map<RemoteKey, DiskMeasurement> {
    paired(keys_of(es), readings_in(es))
}

impl View for RemoteMeasurementMap {
    type V = Map<RemoteKey, DiskMeasurement>;

    closed spec fn view(&self) -> Self::V {
        entries_view(self.entries@)
    }
}

/// The store without anything of `peer`. Other peers' entries are untouched.
pub open spec fn without_peer(m: Map<RemoteKey, DiskMeasurement>, peer: Seq<char>) -> Map<
    RemoteKey,
    DiskMeasurement,
> {
    Map::new(|k: RemoteKey| m.contains_key(k) && k.0 != peer, |k: RemoteKey| m[k])
}

/// The store after the rows of an answer of `peer` have been taken in, one
/// after the other: a row with a reading replaces what was known of its
/// mount point, a row without one changes nothing.
pub open spec fn merged(m: Map<RemoteKey, DiskMeasurement>, peer: Seq<char>, rows: Seq<PeerRow>) -> Map<
    RemoteKey,
    DiskMeasurement,
>
    decreases rows.len(),
{
    if rows.len() == 0 {
        m
    } else {
        let before = merged(m, peer, rows.drop_last());
        match rows.last().1 {
            Some(dm) => before.insert((peer, rows.last().0@), dm),
            None => before,
        }
    }
}

/// The store after one attempt to fetch from `peer`: its answer merged in,
/// or, where there was no usable answer, everything of the peer gone.
pub open spec fn after_fetch(
    m: Map<RemoteKey, DiskMeasurement>,
    peer: Seq<char>,
    fetched: Option<Seq<PeerRow>>,
) -> Map<RemoteKey, DiskMeasurement> {
    match fetched {
        Some(rows) => merged(m, peer, rows),
        None => without_peer(m, peer),
    }
}

/// Some row of the answer has a reading for the mount point `mp`.
pub open spec fn carries(rows: Seq<PeerRow>, mp: Seq<char>) -> bool {
    exists|i: int| 0 <= i < rows.len() && (#[trigger] rows[i]).0@ == mp && rows[i].1 is Some
}

/// The reading of the last row that has one for the mount point `mp`.
pub open spec fn last_reading(rows: Seq<PeerRow>, mp: Seq<char>) -> DiskMeasurement
    decreases rows.len(),
{
    if rows.len() == 0 {
        arbitrary()
    } else if rows.last().0@ == mp && rows.last().1 is Some {
        rows.last().1->0
    } else {
        last_reading(rows.drop_last(), mp)
    }
}

/// What merging an answer does to each entry: the peer's mount points that
/// the answer has a reading for get the last such reading, everything else
/// stays as it was.
pub proof fn lemma_merged(m: Map<RemoteKey, DiskMeasurement>, peer: Seq<char>, rows: Seq<PeerRow>)
    ensures
        forall|k: RemoteKey| #[trigger]
            merged(m, peer, rows).contains_key(k) <==> m.contains_key(k) || (k.0 == peer
                && carries(rows, k.1)),
        forall|k: RemoteKey|
            k.0 == peer && carries(rows, k.1) ==> #[trigger] merged(m, peer, rows)[k]
                == last_reading(rows, k.1),
        forall|k: RemoteKey|
            m.contains_key(k) && !(k.0 == peer && carries(rows, k.1)) ==> #[trigger] merged(
                m,
                peer,
                rows,
            )[k] == m[k],
    decreases rows.len(),
{
    if rows.len() > 0 {
        let init = rows.drop_last();
        let last = rows.last();
        let before = merged(m, peer, init);
        let after = merged(m, peer, rows);
        lemma_merged(m, peer, init);
        assert forall|mp: Seq<char>| carries(rows, mp) <==> carries(init, mp) || (last.0@ == mp
            && last.1 is Some) by {
            if carries(rows, mp) {
                let i = choose|i: int|
                    0 <= i < rows.len() && (#[trigger] rows[i]).0@ == mp && rows[i].1 is Some;
                if i < init.len() {
                    assert(init[i] == rows[i]);
                }
            }
            if carries(init, mp) {
                let i = choose|i: int|
                    0 <= i < init.len() && (#[trigger] init[i]).0@ == mp && init[i].1 is Some;
                assert(rows[i] == init[i]);
            }
            if last.0@ == mp && last.1 is Some {
                assert(rows[rows.len() - 1] == last);
            }
        }
        assert forall|k: RemoteKey| #[trigger]
            after.contains_key(k) <==> m.contains_key(k) || (k.0 == peer && carries(
                rows,
                k.1,
            )) by {
            assert(before.contains_key(k) <==> m.contains_key(k) || (k.0 == peer && carries(
                init,
                k.1,
            )));
        }
        assert forall|k: RemoteKey| k.0 == peer && carries(rows, k.1) implies #[trigger] after[k]
            == last_reading(rows, k.1) by {
            if !(last.0@ == k.1 && last.1 is Some) {
                assert(before[k] == last_reading(init, k.1));
            }
        }
        assert forall|k: RemoteKey|
            m.contains_key(k) && !(k.0 == peer && carries(rows, k.1)) implies #[trigger] after[k]
            == m[k] by {
            assert(before[k] == m[k]);
        }
    } else {
        assert forall|mp: Seq<char>| !carries(rows, mp) by {}
    }
}

/// A peer that failed to answer and then answered is known by that answer
/// alone: the store holds for it exactly the mount points that the answer
/// has a reading for, nothing from before the failure, and what it holds
/// for other peers is as it was all along.
pub proof fn lemma_refetch_leaves_no_residue(
    m: Map<RemoteKey, DiskMeasurement>,
    peer: Seq<char>,
    rows: Seq<PeerRow>,
)
    ensures
        ({
            let down = after_fetch(m, peer, None);
            let up = after_fetch(down, peer, Some(rows));
            &&& forall|mp: Seq<char>| !down.contains_key((peer, mp))
            &&& forall|mp: Seq<char>| #[trigger] up.contains_key((peer, mp)) <==> carries(rows, mp)
            &&& forall|mp: Seq<char>|
                carries(rows, mp) ==> #[trigger] up[(peer, mp)] == last_reading(rows, mp)
            &&& forall|k: RemoteKey|
                k.0 != peer ==> (#[trigger] up.contains_key(k) <==> m.contains_key(k))
            &&& forall|k: RemoteKey| k.0 != peer && m.contains_key(k) ==> #[trigger] up[k] == m[k]
        }),
{
    let down = without_peer(m, peer);
    lemma_merged(down, peer, rows);
    let up = merged(down, peer, rows);
    assert forall|mp: Seq<char>| #[trigger] up.contains_key((peer, mp)) <==> carries(rows, mp) by {
        let k: RemoteKey = (peer, mp);
        assert(up.contains_key(k) <==> down.contains_key(k) || (k.0 == peer && carries(rows, k.1)));
    }
    assert forall|k: RemoteKey| k.0 != peer implies (#[trigger] up.contains_key(k)
        <==> m.contains_key(k)) by {
        assert(up.contains_key(k) <==> down.contains_key(k) || (k.0 == peer && carries(rows, k.1)));
    }
}

proof fn lemma_view_at(es: Seq<RemoteEntry>, i: int)
    requires
        keys_of(es).no_duplicates(),
        0 <= i < es.len(),
    ensures
        entries_view(es).contains_key((es[i].peer@, es[i].mountpoint@)),
        entries_view(es)[(es[i].peer@, es[i].mountpoint@)] == es[i].dm,
{
    lemma_paired_at(keys_of(es), readings_in(es), i);
}

proof fn lemma_view_key(es: Seq<RemoteEntry>, k: RemoteKey)
    requires
        keys_of(es).no_duplicates(),
        entries_view(es).contains_key(k),
    ensures
        0 <= keys_of(es).index_of(k) < es.len(),
        es[keys_of(es).index_of(k)].peer@ == k.0,
        es[keys_of(es).index_of(k)].mountpoint@ == k.1,
        es[keys_of(es).index_of(k)].dm == entries_view(es)[k],
{
    lemma_paired_key(keys_of(es), readings_in(es), k);
    let p = keys_of(es).index_of(k);
    assert(keys_of(es)[p] == (es[p].peer@, es[p].mountpoint@));
}

proof fn lemma_view_remove(es: Seq<RemoteEntry>, i: int)
    requires
        keys_of(es).no_duplicates(),
        0 <= i < es.len(),
    ensures
        keys_of(es.remove(i)).no_duplicates(),
        entries_view(es.remove(i)) == entries_view(es).remove((es[i].peer@, es[i].mountpoint@)),
{
    assert(keys_of(es.remove(i)) =~= keys_of(es).remove(i));
    assert(readings_in(es.remove(i)) =~= readings_in(es).remove(i));
    lemma_paired_remove(keys_of(es), readings_in(es), i);
}

fn find(entries: &Vec<RemoteEntry>, peer: &String, mountpoint: &String) -> (r: Option<usize>)
    ensures
        match r {
            Some(i) => i < entries@.len() && entries@[i as int].peer@ == peer@
                && entries@[i as int].mountpoint@ == mountpoint@,
            None => !keys_of(entries@).contains((peer@, mountpoint@)),
        },
{
    let n: usize = entries.len();
    let mut i: usize = 0;
    while i < n
        invariant
            0 <= i <= n,
            n == entries@.len(),
            forall|j: int| 0 <= j < i ==> keys_of(entries@)[j] != (peer@, mountpoint@),
        decreases n - i,
    {
        if entries[i].peer == *peer && entries[i].mountpoint == *mountpoint {
            return Some(i);
        }
        i += 1;
    }
    None
}

impl RemoteMeasurementMap {
    #[verifier::type_invariant]
    spec fn inv(&self) -> bool {
        keys_of(self.entries@).no_duplicates()
    }

    /// A store that knows of no peer.
    pub fn new() -> (m: RemoteMeasurementMap)
        ensures
            m@ == Map::<RemoteKey, DiskMeasurement>::empty(),
    {
        let m = RemoteMeasurementMap { entries: Vec::new() };
        assert(m@ =~= Map::<RemoteKey, DiskMeasurement>::empty());
        m
    }

    /// Moves the entries out, leaving the store empty for as long as they
    /// are worked on.
    fn take_entries(&mut self) -> (es: Vec<RemoteEntry>)
        ensures
            es == old(self).entries,
            final(self).entries@.len() == 0,
    {
        let mut es: Vec<RemoteEntry> = Vec::new();
        core::mem::swap(&mut self.entries, &mut es);
        es
    }

    /// The number of entries.
    pub fn len(&self) -> (n: usize)
        ensures
            self@.dom().finite(),
            n == self@.len(),
    {
        proof {
            use_type_invariant(self);
            lemma_paired_len(keys_of(self.entries@), readings_in(self.entries@));
        }
        self.entries.len()
    }

    /// What `peer` last reported of `mountpoint`.
    pub fn get(&self, peer: &String, mountpoint: &String) -> (r: Option<DiskMeasurement>)
        ensures
            match r {
                Some(dm) => self@.contains_key((peer@, mountpoint@)) && dm == self@[(
                    peer@,
                    mountpoint@,
                )],
                None => !self@.contains_key((peer@, mountpoint@)),
            },
    {
        proof {
            use_type_invariant(self);
        }
        match find(&self.entries, peer, mountpoint) {
            Some(i) => {
                proof {
                    lemma_view_at(self.entries@, i as int);
                }
                Some(self.entries[i].dm)
            },
            None => None,
        }
    }

    /// Makes `dm` what is known of `mountpoint` at `peer`, in place of
    /// whatever was known before.
    pub fn insert(&mut self, peer: String, mountpoint: String, dm: DiskMeasurement)
        ensures
            final(self)@ == old(self)@.insert((peer@, mountpoint@), dm),
    {
        proof {
            use_type_invariant(&*self);
        }
        let mut entries = self.take_entries();
        let ghost before = entries@;
        match find(&entries, &peer, &mountpoint) {
            Some(i) => {
                entries[i].dm = dm;
                proof {
                    assert(keys_of(entries@) =~= keys_of(before));
                    assert(readings_in(entries@) =~= readings_in(before).update(i as int, dm));
                    lemma_paired_update(keys_of(before), readings_in(before), i as int, dm);
                    assert(keys_of(before)[i as int] == (peer@, mountpoint@));
                }
            },
            None => {
                let entry = RemoteEntry { peer, mountpoint, dm };
                proof {
                    assert(keys_of(before.push(entry)) =~= keys_of(before).push(
                        (peer@, mountpoint@),
                    ));
                    assert(readings_in(before.push(entry)) =~= readings_in(before).push(dm));
                    lemma_paired_push(
                        keys_of(before),
                        readings_in(before),
                        (peer@, mountpoint@),
                        dm,
                    );
                }
                entries.push(entry);
            },
        }
        self.entries = entries;
    }

    /// Forgets everything of `peer`.
    pub fn remove_peer(&mut self, peer: &String)
        ensures
            final(self)@ == without_peer(old(self)@, peer@),
    {
        proof {
            use_type_invariant(&*self);
        }
        let mut entries = self.take_entries();
        let ghost orig = entries_view(entries@);
        let mut i: usize = 0;
        while i < entries.len()
            invariant
                0 <= i <= entries@.len(),
                keys_of(entries@).no_duplicates(),
                forall|j: int| 0 <= j < i ==> (#[trigger] entries@[j]).peer@ != peer@,
                forall|k: RemoteKey| #[trigger]
                    entries_view(entries@).contains_key(k) ==> orig.contains_key(k)
                        && entries_view(entries@)[k] == orig[k],
                forall|k: RemoteKey|
                    orig.contains_key(k) && k.0 != peer@ ==> #[trigger] entries_view(
                        entries@,
                    ).contains_key(k),
            decreases entries@.len() - i,
        {
            if entries[i].peer == *peer {
                proof {
                    lemma_view_remove(entries@, i as int);
                }
                let gone = entries.remove(i);
            } else {
                i += 1;
            }
        }
        proof {
            let a = entries_view(entries@);
            let b = without_peer(orig, peer@);
            assert forall|k: RemoteKey| a.contains_key(k) implies b.contains_key(k) && a[k]
                == b[k] by {
                lemma_view_key(entries@, k);
            }
            assert(a =~= b);
        }
        self.entries = entries;
    }

    /// Every entry: peer, mount point and reading, each pair once, in no
    /// particular order.
    pub fn rows(&self) -> (rows: Vec<((String, String), DiskMeasurement)>)
        ensures
            forall|i: int, j: int|
                0 <= i < j < rows@.len() ==> (rows@[i].0.0@, rows@[i].0.1@) != (
                    rows@[j].0.0@,
                    rows@[j].0.1@,
                ),
            forall|i: int|
                0 <= i < rows@.len() ==> self@.contains_key(
                    ((#[trigger] rows@[i]).0.0@, rows@[i].0.1@),
                ) && self@[(rows@[i].0.0@, rows@[i].0.1@)] == rows@[i].1,
            forall|k: RemoteKey|
                self@.contains_key(k) ==> exists|i: int|
                    0 <= i < rows@.len() && (#[trigger] rows@[i]).0.0@ == k.0 && rows@[i].0.1@
                        == k.1,
    {
        proof {
            use_type_invariant(self);
        }
        let mut rows: Vec<((String, String), DiskMeasurement)> = Vec::new();
        let n: usize = self.entries.len();
        let mut i: usize = 0;
        while i < n
            invariant
                0 <= i <= n,
                n == self.entries@.len(),
                rows@.len() == i,
                forall|j: int|
                    0 <= j < i ==> (#[trigger] rows@[j]).0.0@ == self.entries@[j].peer@
                        && rows@[j].0.1@ == self.entries@[j].mountpoint@ && rows@[j].1
                        == self.entries@[j].dm,
            decreases n - i,
        {
            let e = &self.entries[i];
            rows.push(((e.peer.clone(), e.mountpoint.clone()), e.dm));
            i += 1;
        }
        proof {
            assert forall|a: int, b: int| 0 <= a < b < rows@.len() implies (
                rows@[a].0.0@,
                rows@[a].0.1@,
            ) != (rows@[b].0.0@, rows@[b].0.1@) by {
                assert(keys_of(self.entries@)[a] != keys_of(self.entries@)[b]);
            }
            assert forall|j: int| 0 <= j < rows@.len() implies self@.contains_key(
                ((#[trigger] rows@[j]).0.0@, rows@[j].0.1@),
            ) && self@[(rows@[j].0.0@, rows@[j].0.1@)] == rows@[j].1 by {
                lemma_view_at(self.entries@, j);
            }
            assert forall|k: RemoteKey| self@.contains_key(k) implies exists|j: int|
                0 <= j < rows@.len() && (#[trigger] rows@[j]).0.0@ == k.0 && rows@[j].0.1@
                    == k.1 by {
                lemma_view_key(self.entries@, k);
                let p = keys_of(self.entries@).index_of(k);
                assert(rows@[p].0.0@ == k.0);
            }
        }
        rows
    }
}

/// Takes in the outcome of one attempt to fetch from the peer `remote`.
///
/// An answer replaces, row by row, what was known of the mount points it
/// has a reading for. No answer, for whatever reason, makes the peer vanish
/// from the store until it answers again.
pub fn record_remote(m: &mut RemoteMeasurementMap, remote: &String, fetched: Option<Vec<PeerRow>>)
    ensures
        final(m)@ == after_fetch(
            old(m)@,
            remote@,
            match fetched {
                Some(rows) => Some(rows@),
                None => None,
            },
        ),
{
    match fetched {
        Some(rows) => {
            let n: usize = rows.len();
            let mut i: usize = 0;
            while i < n
                invariant
                    0 <= i <= n,
                    n == rows@.len(),
                    m@ == merged(old(m)@, remote@, rows@.take(i as int)),
                decreases n - i,
            {
                proof {
                    assert(rows@.take(i + 1).drop_last() =~= rows@.take(i as int));
                }
                match rows[i].1 {
                    Some(dm) => {
                        m.insert(remote.clone(), rows[i].0.clone(), dm);
                    },
                    None => {},
                }
                i += 1;
            }
            assert(rows@.take(n as int) =~= rows@);
        },
        None => {
            m.remove_peer(remote);
        },
    }
}

} // verus!
