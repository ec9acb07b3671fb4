//! The whole computation on a buffer held in memory: cut, aggregate each
//! range, combine, format.

use crate::aggregate::lemma_merge_all_push;
use crate::aggregate::lemma_tally_of_concat;
use crate::aggregate::lemma_tally_of_empty;
use crate::aggregate::lemma_tally_of_wf;
use crate::aggregate::merge_all;
use crate::aggregate::tally_of;
use crate::aggregate::Tally;
use crate::chunk::process_chunk;
use crate::merge::merge_all_tables;
use crate::merge::views;
use crate::records::check_records;
use crate::records::is_line_start;
use crate::records::lemma_records_split;
use crate::records::records;
use crate::records::slice_range;
use crate::records::well_formed;
use crate::records::InputError;
use crate::records::MAX_RECORDS;
use crate::report::format_report;
use crate::report::report_text;
use crate::segment::cut_point;
use crate::segment::lemma_cut_points;
use crate::segment::range_view;
use crate::segment::segment;
use crate::segment::segments;
use crate::table::StationTable;
use vstd::prelude::*;

verus! {

/// The bytes of the `i`-th range that a buffer is cut into.
pub open spec fn range_bytes(data: Seq<u8>, workers: int, i: int) -> Seq<u8> {
    data.subrange(cut_point(data, workers, i), cut_point(data, workers, i + 1))
}

/// The tallies of the ranges that a buffer is cut into, range by range.
pub open spec fn segment_tallies(data: Seq<u8>, workers: int) -> Seq<Tally> {
    Seq::new(
        segments(data, workers).len(),
        |i: int| tally_of(records(range_bytes(data, workers, i))),
    )
}

/// The records of the range between two line boundaries: the records up to
/// its end are the records up to its start followed by its own, and the
/// buffer up to its end is well formed exactly when the buffer up to its
/// start and the range are.
pub proof fn lemma_range_records(data: Seq<u8>, from: int, to: int)
    requires
        is_line_start(data, from),
        is_line_start(data, to),
        from <= to,
    ensures
        records(data.subrange(0, to)) == records(data.subrange(0, from)) + records(
            data.subrange(from, to),
        ),
        well_formed(data.subrange(0, to)) == (well_formed(data.subrange(0, from)) && well_formed(
            data.subrange(from, to),
        )),
{
    let upto = data.subrange(0, to);
    assert(is_line_start(upto, from));
    lemma_records_split(upto, from);
    assert(upto.subrange(0, from) =~= data.subrange(0, from));
    assert(upto.subrange(from, upto.len() as int) =~= data.subrange(from, to));
}

/// The first `n` ranges of a buffer hold the records of the buffer up to
/// the `n`-th cut point, and their tallies taken together are the tally of
/// those records.
pub proof fn lemma_ranges_upto(data: Seq<u8>, workers: int, n: int)
    requires
        workers >= 1,
        data.len() > 0,
        0 <= n <= workers,
    ensures
        merge_all(segment_tallies(data, workers).take(n)) == tally_of(
            records(data.subrange(0, cut_point(data, workers, n))),
        ),
        well_formed(data.subrange(0, cut_point(data, workers, n))) == (forall|i: int|
            0 <= i < n ==> well_formed(#[trigger] range_bytes(data, workers, i))),
        forall|i: int|
            0 <= i < n ==> records(#[trigger] range_bytes(data, workers, i)).len() <= records(
                data.subrange(0, cut_point(data, workers, n)),
            ).len(),
    decreases n,
{
    let tallies = segment_tallies(data, workers);
    if n == 0 {
        lemma_cut_points(data, workers, 0);
        lemma_tally_of_empty();
        assert(tallies.take(0) =~= Seq::<Tally>::empty());
        assert(data.subrange(0, 0) =~= Seq::<u8>::empty());
    } else {
        lemma_ranges_upto(data, workers, n - 1);
        lemma_cut_points(data, workers, n - 1);
        let from = cut_point(data, workers, n - 1);
        let to = cut_point(data, workers, n);
        lemma_range_records(data, from, to);
        assert(tallies.take(n) =~= tallies.take(n - 1).push(tallies[n - 1]));
        lemma_merge_all_push(tallies.take(n - 1), tallies[n - 1]);
        lemma_tally_of_concat(records(data.subrange(0, from)), records(data.subrange(from, to)));
        assert(range_bytes(data, workers, n - 1) == data.subrange(from, to));
    }
}

/// Aggregating range by range and combining gives what aggregating the
/// whole buffer gives, for any number of ranges: the tallies of the ranges
/// taken together are the tally of the buffer.  The buffer is well formed
/// exactly when every range is, and no range holds more records than the
/// buffer.
pub proof fn lemma_segments_aggregate(data: Seq<u8>, workers: int)
    requires
        workers >= 1,
    ensures
        merge_all(segment_tallies(data, workers)) == tally_of(records(data)),
        well_formed(data) == (forall|i: int|
            0 <= i < segments(data, workers).len() ==> well_formed(
                #[trigger] range_bytes(data, workers, i),
            )),
        forall|i: int|
            0 <= i < segments(data, workers).len() ==> records(
                #[trigger] range_bytes(data, workers, i),
            ).len() <= records(data).len(),
{
    let tallies = segment_tallies(data, workers);
    if data.len() == 0 {
        lemma_tally_of_empty();
        assert(tallies =~= Seq::<Tally>::empty());
    } else {
        lemma_ranges_upto(data, workers, workers);
        lemma_cut_points(data, workers, 0);
        assert(tallies.take(workers) =~= tallies);
        assert(data.subrange(0, data.len() as int) =~= data);
    }
}

/// The report of a buffer, computed range by range for `workers` ranges.
/// The result does not depend on the number of ranges.
pub fn summarize(data: &[u8], workers: usize) -> (out: Vec<u8>)
    requires
        workers >= 1,
        well_formed(data@),
        records(data@).len() <= MAX_RECORDS,
    ensures
        out@ == report_text(tally_of(records(data@))),
{
    let ranges: Vec<(usize, usize)> = segment(data, workers);
    let mut parts: Vec<StationTable> = Vec::new();
    let mut i: usize = 0;
    let ghost cuts = segments(data@, workers as int);
    let ghost tallies = segment_tallies(data@, workers as int);
    proof {
        lemma_segments_aggregate(data@, workers as int);
        assert(range_view(ranges@).len() == ranges@.len());
        assert(views(parts@) =~= tallies.take(0));
    }
    while i < ranges.len()
        invariant
            0 <= i <= ranges@.len(),
            workers >= 1,
            records(data@).len() <= MAX_RECORDS,
            range_view(ranges@) == cuts,
            cuts == segments(data@, workers as int),
            tallies == segment_tallies(data@, workers as int),
            ranges@.len() == cuts.len(),
            tallies.len() == cuts.len(),
            parts@.len() == i,
            forall|k: int|
                0 <= k < cuts.len() ==> well_formed(
                    #[trigger] range_bytes(data@, workers as int, k),
                ) && records(range_bytes(data@, workers as int, k)).len() <= records(data@).len(),
            forall|k: int| 0 <= k < parts@.len() ==> (#[trigger] parts@[k]).wf(),
            views(parts@) == tallies.take(i as int),
        decreases ranges@.len() - i,
    {
        let range: (usize, usize) = ranges[i];
        proof {
            lemma_cut_points(data@, workers as int, i as int);
            assert(range_view(ranges@)[i as int] == cuts[i as int]);
            assert(data@.subrange(range.0 as int, range.1 as int) == range_bytes(
                data@,
                workers as int,
                i as int,
            ));
        }
        let part: StationTable = process_chunk(slice_range(data, range.0, range.1));
        proof {
            let before = views(parts@);
            let after = views(parts@.push(part));
            assert(tallies[i as int] == part@);
            assert forall|k: int| 0 <= k < after.len() implies after[k] == tallies.take(i + 1)[k] by {
                if k < i {
                    assert(after[k] == before[k]);
                    assert(before[k] == tallies.take(i as int)[k]);
                }
            }
            assert(after =~= tallies.take(i + 1));
        }
        parts.push(part);
        i += 1;
    }
    proof {
        assert(tallies.take(i as int) =~= tallies);
        lemma_tally_of_wf(records(data@));
    }
    let merged: StationTable = merge_all_tables(parts);
    format_report(merged)
}

/// The report of a buffer, or the reason why it has none.  A worker count
/// of zero is taken as one.
pub fn try_summarize(data: &[u8], workers: usize) -> (result: Result<Vec<u8>, InputError>)
    ensures
        match result {
            Ok(out) => well_formed(data@) && records(data@).len() <= MAX_RECORDS && out@
                == report_text(tally_of(records(data@))),
            Err(InputError::Malformed) => !well_formed(data@),
            Err(InputError::TooManyRecords) => well_formed(data@) && records(data@).len()
                > MAX_RECORDS,
        },
{
    match check_records(data) {
        Err(err) => Err(err),
        Ok(_) => {
            let w: usize = if workers == 0 {
                1
            } else {
                workers
            };
            Ok(summarize(data, w))
        },
    }
}

} // verus!
