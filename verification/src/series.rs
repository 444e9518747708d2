//! One mount point's history: a time-ordered run of readings and the lossy
//! compaction that keeps it short.

use crate::measurement::DiskMeasurement;
use std::collections::VecDeque;
use vstd::prelude::*;

verus! {

/// Most readings a series holds once an insertion has completed.
pub const KEEP: usize = 500;

/// Position of the reading that position `i` is held against during
/// compaction: the nearest earlier position that compaction keeps.
///
/// Position 0 is always kept, and stays the reference until some later
/// reading differs enough from it to take over.
pub open spec fn reference_index(s: Seq<DiskMeasurement>, i: int) -> int
    decreases i,
{
    if i <= 1 {
        0
    } else {
        let r = reference_index(s, i - 1);
        if s[r].covers(s[i - 1]) {
            r
        } else {
            i - 1
        }
    }
}

/// Compaction drops position `i`: it is neither the first nor the last
/// reading, and the reference it is held against covers it.
pub open spec fn is_redundant(s: Seq<DiskMeasurement>, i: int) -> bool {
    0 < i < s.len() - 1 && s[reference_index(s, i)].covers(s[i])
}

/// The readings from position `from` on that compaction keeps, in order.
pub open spec fn kept_from(s: Seq<DiskMeasurement>, from: int) -> Seq<DiskMeasurement>
    decreases s.len() - from,
{
    if from < 0 || from >= s.len() {
        Seq::empty()
    } else if is_redundant(s, from) {
        kept_from(s, from + 1)
    } else {
        seq![s[from]] + kept_from(s, from + 1)
    }
}

/// What compaction makes of a series: every reading that is not redundant.
pub open spec fn consolidated(s: Seq<DiskMeasurement>) -> Seq<DiskMeasurement> {
    kept_from(s, 0)
}

/// Timestamps never go down along the series.
pub open spec fn non_decreasing(s: Seq<DiskMeasurement>) -> bool {
    forall|i: int, j: int| 0 <= i <= j < s.len() ==> s[i].ts <= s[j].ts
}

proof fn lemma_kept_from_clean_stretch(s: Seq<DiskMeasurement>, a: int, b: int)
    requires
        0 <= a <= b <= s.len(),
        forall|j: int| a <= j < b ==> !is_redundant(s, j),
    ensures
        kept_from(s, a) == s.subrange(a, b) + kept_from(s, b),
    decreases b - a,
{
    if a == b {
        assert(s.subrange(a, b) + kept_from(s, b) =~= kept_from(s, b));
    } else {
        lemma_kept_from_clean_stretch(s, a + 1, b);
        assert(seq![s[a]] + (s.subrange(a + 1, b) + kept_from(s, b)) =~= s.subrange(a, b)
            + kept_from(s, b));
    }
}

/// A series of at most two readings has nothing between its ends, so
/// compaction leaves it as it is.
pub proof fn lemma_short_series_unchanged(s: Seq<DiskMeasurement>)
    requires
        s.len() <= 2,
    ensures
        consolidated(s) == s,
{
    assert forall|j: int| 0 <= j < s.len() implies !is_redundant(s, j) by {}
    lemma_kept_from_clean_stretch(s, 0, s.len() as int);
    assert(s.subrange(0, s.len() as int) =~= s);
}

proof fn lemma_kept_from_ends_with_last(s: Seq<DiskMeasurement>, from: int)
    requires
        0 <= from < s.len(),
    ensures
        kept_from(s, from).len() >= 1,
        kept_from(s, from).last() == s.last(),
        kept_from(s, from).len() <= s.len() - from,
    decreases s.len() - from,
{
    let rest = kept_from(s, from + 1);
    if from < s.len() - 1 {
        lemma_kept_from_ends_with_last(s, from + 1);
        assert((seq![s[from]] + rest).last() == rest.last());
    } else {
        assert(rest =~= Seq::<DiskMeasurement>::empty());
        assert(!is_redundant(s, from));
        assert(seq![s[from]] + rest =~= seq![s[from]]);
    }
}

/// Compaction never drops the earliest or the latest reading, and never
/// makes a series longer.
pub proof fn lemma_consolidated_keeps_ends(s: Seq<DiskMeasurement>)
    ensures
        consolidated(s).len() <= s.len(),
        s.len() >= 1 ==> consolidated(s).len() >= 1 && consolidated(s).first() == s.first()
            && consolidated(s).last() == s.last(),
        s.len() >= 2 ==> consolidated(s).len() >= 2,
{
    if s.len() >= 1 {
        lemma_kept_from_ends_with_last(s, 0);
        assert(!is_redundant(s, 0));
        if s.len() >= 2 {
            lemma_kept_from_ends_with_last(s, 1);
        }
    }
}

proof fn lemma_kept_from_shorter(s: Seq<DiskMeasurement>, from: int, i: int)
    requires
        0 <= from <= i < s.len(),
        is_redundant(s, i),
    ensures
        kept_from(s, from).len() < s.len() - from,
    decreases s.len() - from,
{
    if from < i {
        lemma_kept_from_shorter(s, from + 1, i);
    } else if from + 1 < s.len() {
        lemma_kept_from_ends_with_last(s, from + 1);
    }
}

/// Where some reading is redundant, compaction makes the series shorter.
pub proof fn lemma_consolidated_shorter(s: Seq<DiskMeasurement>, i: int)
    requires
        is_redundant(s, i),
    ensures
        consolidated(s).len() < s.len(),
{
    lemma_kept_from_shorter(s, 0, i);
}

proof fn lemma_kept_from_in_order(s: Seq<DiskMeasurement>, from: int)
    requires
        non_decreasing(s),
        0 <= from <= s.len(),
    ensures
        non_decreasing(kept_from(s, from)),
        forall|t: int|
            0 <= t < kept_from(s, from).len() ==> exists|j: int|
                from <= j < s.len() && s[j] == #[trigger] kept_from(s, from)[t],
    decreases s.len() - from,
{
    if from < s.len() {
        lemma_kept_from_in_order(s, from + 1);
        let rest = kept_from(s, from + 1);
        let all = kept_from(s, from);
        assert forall|t: int| 0 <= t < all.len() implies exists|j: int|
            from <= j < s.len() && s[j] == #[trigger] all[t] by {
            if is_redundant(s, from) {
                let j = choose|j: int| from + 1 <= j < s.len() && s[j] == rest[t];
                assert(from <= j < s.len() && s[j] == all[t]);
            } else if t == 0 {
                assert(s[from] == all[0]);
            } else {
                let j = choose|j: int| from + 1 <= j < s.len() && s[j] == rest[t - 1];
                assert(from <= j < s.len() && s[j] == all[t]);
            }
        }
        if !is_redundant(s, from) {
            assert forall|a: int, b: int| 0 <= a <= b < all.len() implies all[a].ts
                <= all[b].ts by {
                if a == 0 && b > 0 {
                    let j = choose|j: int| from + 1 <= j < s.len() && s[j] == rest[b - 1];
                    assert(s[from].ts <= s[j].ts);
                } else if a > 0 {
                    assert(rest[a - 1].ts <= rest[b - 1].ts);
                }
            }
        }
    }
}

/// Compaction only takes readings out: what stays, stays in order of time.
pub proof fn lemma_consolidated_in_order(s: Seq<DiskMeasurement>)
    requires
        non_decreasing(s),
    ensures
        non_decreasing(consolidated(s)),
{
    lemma_kept_from_in_order(s, 0);
}

/// A reading that reports another size of filesystem than the reading
/// before it is never dropped.
pub proof fn lemma_size_change_is_kept(s: Seq<DiskMeasurement>, i: int)
    requires
        0 < i < s.len(),
        s[i].bytes_total != s[i - 1].bytes_total,
    ensures
        !is_redundant(s, i),
{
    if i > 1 {
        let r = reference_index(s, i - 1);
        assert(reference_index(s, i) == if s[r].covers(s[i - 1]) {
            r
        } else {
            i - 1
        });
    }
}

/// No reading between the ends repeats the reading before it: each is of
/// another size of filesystem, or its free space is further away than the
/// tolerance allows.
pub open spec fn settled(s: Seq<DiskMeasurement>) -> bool {
    forall|t: int| 0 < t < s.len() - 1 ==> !s[t - 1].covers(#[trigger] s[t])
}

proof fn lemma_kept_from_settled(s: Seq<DiskMeasurement>, from: int)
    requires
        1 <= from <= s.len(),
    ensures
        ({
            let r = reference_index(s, from);
            let k = kept_from(s, from);
            forall|t: int|
                0 <= t < k.len() - 1 ==> !(if t == 0 {
                    s[r]
                } else {
                    k[t - 1]
                }).covers(#[trigger] k[t])
        }),
    decreases s.len() - from,
{
    if from < s.len() {
        let r = reference_index(s, from);
        let k = kept_from(s, from);
        let rest = kept_from(s, from + 1);
        lemma_kept_from_settled(s, from + 1);
        assert(reference_index(s, from + 1) == if s[r].covers(s[from]) {
            r
        } else {
            from
        });
        if !is_redundant(s, from) {
            assert(k =~= seq![s[from]] + rest);
            assert forall|t: int| 0 <= t < k.len() - 1 implies !(if t == 0 {
                s[r]
            } else {
                k[t - 1]
            }).covers(#[trigger] k[t]) by {
                if t == 0 {
                    assert(rest.len() >= 1);
                    assert(from < s.len() - 1);
                } else {
                    assert(k[t] == rest[t - 1]);
                    assert(!s[r].covers(s[from])) by {
                        assert(rest.len() >= 1);
                    }
                    if t >= 2 {
                        assert(k[t - 1] == rest[t - 2]);
                    }
                }
            }
        }
    }
}

/// Compaction leaves no steady stretch behind: every run of readings that
/// repeat their reference has collapsed to that reference.
pub proof fn lemma_consolidated_is_settled(s: Seq<DiskMeasurement>)
    ensures
        settled(consolidated(s)),
{
    if s.len() >= 1 {
        let c = consolidated(s);
        let k = kept_from(s, 1);
        assert(!is_redundant(s, 0));
        assert(c =~= seq![s[0]] + k);
        lemma_kept_from_settled(s, 1);
        assert forall|t: int| 0 < t < c.len() - 1 implies !c[t - 1].covers(#[trigger] c[t]) by {
            assert(c[t] == k[t - 1]);
            if t >= 2 {
                assert(c[t - 1] == k[t - 2]);
            }
        }
    }
}

proof fn lemma_settled_reference(s: Seq<DiskMeasurement>, i: int)
    requires
        settled(s),
        1 <= i <= s.len() - 1,
    ensures
        reference_index(s, i) == i - 1,
    decreases i,
{
    if i > 1 {
        lemma_settled_reference(s, i - 1);
        assert(!s[i - 2].covers(s[i - 1]));
    }
}

/// A series without a steady stretch gives compaction nothing to drop.
pub proof fn lemma_settled_is_unchanged(s: Seq<DiskMeasurement>)
    requires
        settled(s),
    ensures
        consolidated(s) == s,
{
    assert forall|j: int| 0 <= j < s.len() implies !is_redundant(s, j) by {
        if 0 < j < s.len() - 1 {
            lemma_settled_reference(s, j);
            assert(!s[j - 1].covers(s[j]));
        }
    }
    lemma_kept_from_clean_stretch(s, 0, s.len() as int);
    assert(s.subrange(0, s.len() as int) =~= s);
}

/// Compacting what has been compacted drops nothing more.
pub proof fn lemma_consolidated_twice(s: Seq<DiskMeasurement>)
    ensures
        consolidated(consolidated(s)) == consolidated(s),
{
    lemma_consolidated_is_settled(s);
    lemma_settled_is_unchanged(consolidated(s));
}

/// Drops every reading that says nothing new, and tells whether any was
/// dropped.
///
/// One pass from the front marks each interior reading that its reference
/// covers; the marked positions are then removed from the back, so that the
/// positions still to be removed stay valid.
pub fn consolidate_similar(v: &mut VecDeque<DiskMeasurement>) -> (removed: bool)
    ensures
        final(v)@ == consolidated(old(v)@),
        removed == (final(v)@.len() < old(v)@.len()),
        old(v)@.len() <= 2 ==> !removed && final(v)@ == old(v)@,
        old(v)@.len() >= 1 ==> final(v)@.len() >= 1 && final(v)@.first() == old(v)@.first()
            && final(v)@.last() == old(v)@.last(),
        non_decreasing(old(v)@) ==> non_decreasing(final(v)@),
        settled(final(v)@),
{
    let ghost s = v@;
    proof {
        lemma_consolidated_is_settled(s);
        lemma_consolidated_keeps_ends(s);
        if s.len() <= 2 {
            lemma_short_series_unchanged(s);
        }
        if non_decreasing(s) {
            lemma_consolidated_in_order(s);
        }
    }
    let mut marks: Vec<usize> = Vec::new();
    let n: usize = v.len();
    if n >= 2 {
        let mut prev: usize = 0;
        let mut i: usize = 1;
        while i < n - 1
            invariant
                v@ == s,
                n == s.len(),
                n >= 2,
                1 <= i <= n - 1,
                prev == reference_index(s, i as int),
                0 <= prev < i,
                forall|a: int, b: int| 0 <= a < b < marks@.len() ==> marks@[a] < marks@[b],
                forall|a: int| 0 <= a < marks@.len() ==> marks@[a] < i && is_redundant(s, marks@[a] as int),
                forall|j: int| 0 <= j < i && is_redundant(s, j) ==> exists|a: int| 0 <= a < marks@.len() && marks@[a] == j,
            decreases n - i,
        {
            let cur: DiskMeasurement = v[i];
            let kept: DiskMeasurement = v[prev];
            let ghost before = marks@;
            if kept.is_covering(&cur) {
                marks.push(i);
                proof {
                    assert(is_redundant(s, i as int));
                    assert forall|j: int| 0 <= j < i + 1 && is_redundant(s, j) implies exists|a: int|
                        0 <= a < marks@.len() && marks@[a] == j by {
                        if j < i {
                            let a = choose|a: int| 0 <= a < before.len() && before[a] == j;
                            assert(marks@[a] == j);
                        } else {
                            assert(marks@[before.len() as int] == j);
                        }
                    }
                }
            } else {
                prev = i;
                proof {
                    assert forall|j: int| 0 <= j < i + 1 && is_redundant(s, j) implies exists|a: int|
                        0 <= a < marks@.len() && marks@[a] == j by {
                        let a = choose|a: int| 0 <= a < before.len() && before[a] == j;
                        assert(marks@[a] == j);
                    }
                }
            }
            i += 1;
        }
    }
    proof {
        assert forall|j: int| 0 <= j < s.len() && is_redundant(s, j) implies exists|a: int|
            0 <= a < marks@.len() && marks@[a] == j by {}
    }
    let total: usize = marks.len();
    let mut k: usize = total;
    proof {
        lemma_kept_from_clean_stretch(s, s.len() as int, s.len() as int);
        assert(s.subrange(0, s.len() as int) + kept_from(s, s.len() as int) =~= s);
    }
    while k > 0
        invariant
            0 <= k <= total,
            total == marks@.len(),
            s.len() == n,
            forall|a: int, b: int| 0 <= a < b < marks@.len() ==> marks@[a] < marks@[b],
            forall|a: int| 0 <= a < marks@.len() ==> marks@[a] < n && is_redundant(s, marks@[a] as int),
            forall|j: int| 0 <= j < s.len() && is_redundant(s, j) ==> exists|a: int| 0 <= a < marks@.len() && marks@[a] == j,
            v@.len() == n - (total - k),
            ({
                let cut: int = if k == total { s.len() as int } else { marks@[k as int] as int };
                v@ == s.subrange(0, cut) + kept_from(s, cut)
            }),
        decreases k,
    {
        let ghost cut: int = if k == total { s.len() as int } else { marks@[k as int] as int };
        k -= 1;
        let idx: usize = marks[k];
        proof {
            assert(idx < cut);
            assert forall|j: int| idx < j < cut implies !is_redundant(s, j) by {
                if is_redundant(s, j) {
                    let a = choose|a: int| 0 <= a < marks@.len() && marks@[a] == j;
                    if a <= k {
                        assert(marks@[a] <= marks@[k as int]);
                    } else {
                        assert(a >= k + 1);
                        if k + 1 < total {
                            assert(marks@[k + 1] <= marks@[a]);
                        }
                    }
                }
            }
            lemma_kept_from_clean_stretch(s, idx + 1, cut);
            assert(kept_from(s, idx as int) == kept_from(s, idx + 1));
        }
        let ghost before = v@;
        let gone = v.remove(idx);
        proof {
            assert(gone is Some);
            assert(v@ == before.remove(idx as int));
            assert(before.remove(idx as int) =~= s.subrange(0, idx as int) + (s.subrange(
                idx + 1,
                cut,
            ) + kept_from(s, cut)));
        }
    }
    proof {
        if total == 0 {
            assert forall|j: int| 0 <= j < s.len() implies !is_redundant(s, j) by {}
            lemma_kept_from_clean_stretch(s, 0, s.len() as int);
            assert(s.subrange(0, s.len() as int) =~= s);
        } else {
            let first: int = marks@[0] as int;
            assert forall|j: int| 0 <= j < first implies !is_redundant(s, j) by {
                if is_redundant(s, j) {
                    let a = choose|a: int| 0 <= a < marks@.len() && marks@[a] == j;
                    if a > 0 {
                        assert(marks@[0] < marks@[a]);
                    }
                }
            }
            lemma_kept_from_clean_stretch(s, 0, first);
        }
    }
    total > 0
}

/// A series cut down to fewer than [`KEEP`] readings by letting go of the
/// oldest ones.
pub open spec fn trimmed(s: Seq<DiskMeasurement>) -> Seq<DiskMeasurement> {
    if s.len() >= KEEP {
        s.subrange(s.len() - KEEP + 1, s.len() as int)
    } else {
        s
    }
}

/// The series after one more reading has arrived.
///
/// A series with room left just grows. A full one is compacted first, and
/// if that did not make room, its oldest readings go.
pub open spec fn appended(s: Seq<DiskMeasurement>, dm: DiskMeasurement) -> Seq<DiskMeasurement> {
    if s.len() >= KEEP {
        trimmed(consolidated(s)).push(dm)
    } else {
        s.push(dm)
    }
}

/// The readings taken at `threshold` or later, in order.
pub open spec fn since(s: Seq<DiskMeasurement>, threshold: u64) -> Seq<DiskMeasurement> {
    s.filter(|dm: DiskMeasurement| dm.ts >= threshold)
}

/// However long the series was, with the new reading it has at most
/// [`KEEP`], and the new reading is its latest. A series with room left
/// loses nothing.
pub proof fn lemma_appended_bounded(s: Seq<DiskMeasurement>, dm: DiskMeasurement)
    ensures
        0 < appended(s, dm).len() <= KEEP,
        appended(s, dm).last() == dm,
        s.len() < KEEP ==> appended(s, dm) == s.push(dm),
{
}

/// A full series that has a redundant reading makes room by compaction
/// alone: no reading that differs from its reference is given up for the
/// new one.
pub proof fn lemma_appended_spares_history(s: Seq<DiskMeasurement>, dm: DiskMeasurement, i: int)
    requires
        s.len() == KEEP,
        is_redundant(s, i),
    ensures
        appended(s, dm) == consolidated(s).push(dm),
{
    lemma_consolidated_shorter(s, i);
}

/// A reading that is not older than the latest one keeps the series in
/// order of time.
pub proof fn lemma_appended_in_order(s: Seq<DiskMeasurement>, dm: DiskMeasurement)
    requires
        non_decreasing(s),
        s.len() > 0 ==> s.last().ts <= dm.ts,
    ensures
        non_decreasing(appended(s, dm)),
{
    if s.len() >= KEEP {
        let c = consolidated(s);
        lemma_consolidated_in_order(s);
        lemma_consolidated_keeps_ends(s);
        let t = trimmed(c);
        assert forall|a: int, b: int| 0 <= a <= b < t.len() implies t[a].ts <= t[b].ts by {
            if c.len() >= KEEP {
                assert(c[a + c.len() - KEEP + 1].ts <= c[b + c.len() - KEEP + 1].ts);
            }
        }
        assert forall|a: int| 0 <= a < t.len() implies t[a].ts <= dm.ts by {
            if c.len() >= KEEP {
                assert(c[a + c.len() - KEEP + 1].ts <= c[c.len() - 1].ts);
            } else {
                assert(c[a].ts <= c[c.len() - 1].ts);
            }
        }
        assert forall|a: int, b: int| 0 <= a <= b < t.push(dm).len() implies t.push(dm)[a].ts
            <= t.push(dm)[b].ts by {
            if b < t.len() {
                assert(t[a].ts <= t[b].ts);
            } else if a < t.len() {
                assert(t[a].ts <= dm.ts);
            }
        }
    } else {
        assert forall|a: int, b: int| 0 <= a <= b < s.push(dm).len() implies s.push(dm)[a].ts
            <= s.push(dm)[b].ts by {
            if b < s.len() {
                assert(s[a].ts <= s[b].ts);
            } else if a < s.len() {
                assert(s[a].ts <= s[s.len() - 1].ts);
            }
        }
    }
}

/// Appends `dm`, making room first where the series is full.
pub fn push_measurement(q: &mut VecDeque<DiskMeasurement>, dm: DiskMeasurement)
    ensures
        final(q)@ == appended(old(q)@, dm),
        final(q)@.len() <= KEEP,
        final(q)@.len() > 0,
        final(q)@.last() == dm,
{
    if q.len() >= KEEP {
        consolidate_similar(q);
        let ghost compact = q@;
        while q.len() >= KEEP
            invariant
                q@.len() <= compact.len(),
                q@ == compact.subrange(compact.len() - q@.len(), compact.len() as int),
                compact.len() >= KEEP ==> q@.len() >= KEEP - 1,
                compact.len() < KEEP ==> q@ == compact,
            decreases q@.len(),
        {
            let ghost before = q@;
            let oldest = q.pop_front();
            assert(q@ =~= compact.subrange(compact.len() - before.len() + 1, compact.len() as int));
        }
        assert(q@ =~= trimmed(compact));
    }
    q.push_back(dm);
}

/// A copy of the readings taken at `threshold` or later.
pub fn filter_since(v: &VecDeque<DiskMeasurement>, threshold: u64) -> (out: VecDeque<
    DiskMeasurement,
>)
    ensures
        out@ == since(v@, threshold),
        out@.len() <= v@.len(),
{
    let mut out: VecDeque<DiskMeasurement> = VecDeque::new();
    let n: usize = v.len();
    let mut i: usize = 0;
    let ghost pred = |dm: DiskMeasurement| dm.ts >= threshold;
    assert(v@.take(0).filter(pred) =~= Seq::<DiskMeasurement>::empty());
    while i < n
        invariant
            0 <= i <= n,
            n == v@.len(),
            pred == (|dm: DiskMeasurement| dm.ts >= threshold),
            out@ == v@.take(i as int).filter(pred),
            out@.len() <= i,
        decreases n - i,
    {
        let dm: DiskMeasurement = v[i];
        proof {
            reveal(Seq::filter);
            assert(v@.take(i + 1).drop_last() =~= v@.take(i as int));
            assert(v@.take(i + 1).last() == dm);
            assert(v@.take(i + 1).filter(pred) == if pred(dm) {
                v@.take(i as int).filter(pred).push(dm)
            } else {
                v@.take(i as int).filter(pred)
            });
        }
        if dm.ts >= threshold {
            out.push_back(dm);
        }
        i += 1;
    }
    assert(v@.take(n as int) =~= v@);
    out
}

/// Asking for everything since the epoch leaves nothing out.
pub proof fn lemma_since_zero(s: Seq<DiskMeasurement>)
    ensures
        since(s, 0) == s,
    decreases s.len(),
{
    reveal(Seq::filter);
    if s.len() > 0 {
        lemma_since_zero(s.drop_last());
        assert(s.drop_last().push(s.last()) =~= s);
    }
}

/// Of a series in order of time, the readings since `threshold` are its
/// tail: asking for less history cuts readings off the front, and nothing
/// else.
pub proof fn lemma_since_is_a_tail(s: Seq<DiskMeasurement>, threshold: u64) -> (cut: int)
    requires
        non_decreasing(s),
    ensures
        0 <= cut <= s.len(),
        since(s, threshold) == s.subrange(cut, s.len() as int),
        forall|i: int| 0 <= i < cut ==> s[i].ts < threshold,
        forall|i: int| cut <= i < s.len() ==> s[i].ts >= threshold,
    decreases s.len(),
{
    reveal(Seq::filter);
    if s.len() == 0 {
        assert(since(s, threshold) =~= s.subrange(0, 0));
        0
    } else {
        let init = s.drop_last();
        let last = s.last();
        assert forall|i: int, j: int| 0 <= i <= j < init.len() implies init[i].ts <= init[j].ts by {
            assert(s[i].ts <= s[j].ts);
        }
        let cut0 = lemma_since_is_a_tail(init, threshold);
        if last.ts >= threshold {
            assert forall|i: int| 0 <= i < cut0 implies s[i].ts < threshold by {
                assert(init[i].ts < threshold);
            }
            assert forall|i: int| cut0 <= i < s.len() implies s[i].ts >= threshold by {
                if i < init.len() {
                    assert(init[i].ts >= threshold);
                }
            }
            assert(since(s, threshold) == since(init, threshold).push(last));
            assert(init.subrange(cut0, init.len() as int).push(last) =~= s.subrange(
                cut0,
                s.len() as int,
            ));
            cut0
        } else {
            assert(since(s, threshold) == since(init, threshold));
            if cut0 < init.len() {
                assert(init[cut0].ts >= threshold);
                assert(s[cut0].ts <= s[s.len() - 1].ts);
            }
            assert(init.subrange(cut0, init.len() as int) =~= s.subrange(
                s.len() as int,
                s.len() as int,
            ));
            assert forall|i: int| 0 <= i < s.len() implies s[i].ts < threshold by {
                assert(s[i].ts <= s[s.len() - 1].ts);
            }
            s.len() as int
        }
    }
}

} // verus!
