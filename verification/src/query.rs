//! What a page of the local store shows: the slice of history that was
//! asked for, and a short summary of each series.

use crate::measurement::DiskMeasurement;
use crate::series::{lemma_since_zero, since};
use crate::store::{create_filtered_copy_dms, DiskMeasurementMap};
use bytesize::ByteSize;
use std::collections::VecDeque;
use vstd::prelude::*;

verus! {

/// The parameters of a query for history.
pub struct HomeParams {
    /// Readings taken before this time, in seconds since the epoch, are
    /// left out. 0, the default, leaves nothing out.
    pub since: u64,
}

impl Default for HomeParams {
    fn default() -> (p: HomeParams)
        ensures
            p.since == 0,
    {
        HomeParams { since: 0 }
    }
}

/// A copy of the store for a query: every mount point, each with the
/// readings that are not older than `params.since`.
pub fn measurements_for(hm: &DiskMeasurementMap, params: &HomeParams) -> (copy: DiskMeasurementMap)
    ensures
        copy@ == hm@.map_values(|s: Seq<DiskMeasurement>| since(s, params.since)),
        params.since == 0 ==> copy@ == hm@,
{
    let copy = create_filtered_copy_dms(hm, params.since);
    proof {
        if params.since == 0 {
            assert forall|k: Seq<char>| hm@.contains_key(k) implies copy@[k] == hm@[k] by {
                lemma_since_zero(hm@[k]);
            }
            assert(copy@ =~= hm@);
        }
    }
    copy
}

/// A byte count as people read it, in binary units with one decimal, as
/// `bytesize` writes it: `1000` as `1000 B`, `1536` as `1.5 KiB`.
pub uninterp spec fn byte_size_text(bytes: u64) -> Seq<char>;

/// `ByteSize(bytes).to_string()`: the byte count in the crate's default
/// style. The text depends on the count alone.
#[verifier::external_body]
fn format_bytes(bytes: u64) -> (text: String)
    ensures
        text@ == byte_size_text(bytes),
{
    ByteSize(bytes).to_string()
}

/// The summary line of a series: size and free space of the filesystem as
/// of the newest reading, both as people read them, and the number of
/// readings held.
pub fn series_summary(series: &VecDeque<DiskMeasurement>) -> (summary: (String, String, usize))
    requires
        series@.len() > 0,
    ensures
        summary.0@ == byte_size_text(series@.last().bytes_total),
        summary.1@ == byte_size_text(series@.last().bytes_free),
        summary.2 == series@.len(),
{
    let len: usize = series.len();
    let newest: DiskMeasurement = series[len - 1];
    (format_bytes(newest.bytes_total), format_bytes(newest.bytes_free), len)
}

} // verus!
