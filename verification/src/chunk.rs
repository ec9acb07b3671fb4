//! Aggregating the records of one byte range.

use crate::aggregate::lemma_tally_of_empty;
use crate::aggregate::lemma_tally_of_push;
use crate::aggregate::lemma_tally_of_wf;
use crate::aggregate::fold_in;
use crate::aggregate::tally_of;
use crate::numeral::parse_temp;
use crate::numeral::parse_temperature;
use crate::records::find_semicolon;
use crate::records::is_record;
use crate::records::is_record_line;
use crate::records::key_of;
use crate::records::lemma_next_start;
use crate::records::line_at;
use crate::records::next_record;
use crate::records::next_start;
use crate::records::record_of;
use crate::records::check_records;
use crate::records::records;
use crate::records::records_from;
use crate::records::slice_range;
use crate::records::value_of;
use crate::records::well_formed;
use crate::records::well_formed_from;
use crate::records::InputError;
use crate::records::Record;
use crate::records::MAX_RECORDS;
use crate::table::StationTable;
use vstd::prelude::*;

verus! {

/// Folds the record of one line into `map`.  The line comes without its
/// terminator.
pub fn process_line(line: &[u8], map: &mut StationTable)
    requires
        is_record(line@),
        old(map).wf(),
        old(map)@.contains_key(key_of(line@)) ==> old(map)@[key_of(line@)].count < u32::MAX,
    ensures
        final(map)@ == fold_in(old(map)@, key_of(line@), value_of(line@)),
        final(map).wf(),
{
    let split: usize = find_semicolon(line, 0);
    let station: &[u8] = slice_range(line, 0, split);
    let temp_value: i32 = parse_temp(slice_range(line, split + 1, line.len()));
    map.record(station, temp_value);
}

/// Folds the record of one line into `map`, unless the line is no record or
/// the counter of its key is full; `map` is then left as it was.
pub fn try_process_line(line: &[u8], map: &mut StationTable) -> (result: Result<(), InputError>)
    requires
        old(map).wf(),
    ensures
        final(map).wf(),
        match result {
            Ok(()) => is_record(line@) && final(map)@ == fold_in(
                old(map)@,
                key_of(line@),
                value_of(line@),
            ),
            Err(InputError::Malformed) => !is_record(line@) && final(map)@ == old(map)@,
            Err(InputError::TooManyRecords) => is_record(line@) && old(map)@.contains_key(
                key_of(line@),
            ) && old(map)@[key_of(line@)].count == u32::MAX && final(map)@ == old(map)@,
        },
{
    if !is_record_line(line) {
        return Err(InputError::Malformed);
    }
    let split: usize = find_semicolon(line, 0);
    let full: bool = match map.get(slice_range(line, 0, split)) {
        Some(stats) => stats.count == u32::MAX,
        None => false,
    };
    if full {
        return Err(InputError::TooManyRecords);
    }
    process_line(line, map);
    Ok(())
}

/// The mapping of one byte range: every record of the range folded in, from
/// the first to the last.
pub fn process_chunk(data: &[u8]) -> (map: StationTable)
    requires
        well_formed(data@),
        records(data@).len() <= MAX_RECORDS,
    ensures
        map@ == tally_of(records(data@)),
        map.wf(),
{
    let mut map = StationTable::new();
    let len: usize = data.len();
    let mut i: usize = 0;
    let ghost mut done: Seq<Record> = Seq::empty();
    proof {
        lemma_tally_of_empty();
        assert(done + records_from(data@, 0) =~= records(data@));
    }
    while i < len
        invariant
            len == data.len(),
            0 <= i <= len,
            well_formed_from(data@, i as int),
            done + records_from(data@, i as int) == records(data@),
            records(data@).len() <= MAX_RECORDS,
            map@ == tally_of(done),
            map.wf(),
        decreases len - i,
    {
        proof {
            lemma_next_start(data@, i as int);
            lemma_tally_of_wf(done);
        }
        let (station, temp_bytes, next) = next_record(data, i);
        let temp: i32 = parse_temperature(temp_bytes);
        let ghost rec = record_of(line_at(data@, i as int));
        proof {
            let rest = records_from(data@, next_start(data@, i as int));
            assert(records_from(data@, i as int) == seq![rec] + rest);
            assert(done.push(rec) + rest =~= done + (seq![rec] + rest));
            lemma_tally_of_push(done, rec);
        }
        map.record(station, temp);
        proof {
            done = done.push(rec);
        }
        i = next;
    }
    proof {
        assert(done + records_from(data@, len as int) =~= done);
    }
    map
}

/// The mapping of one byte range, or the reason why it has none.
pub fn try_process_chunk(data: &[u8]) -> (result: Result<StationTable, InputError>)
    ensures
        match result {
            Ok(map) => well_formed(data@) && records(data@).len() <= MAX_RECORDS && map@
                == tally_of(records(data@)) && map.wf(),
            Err(InputError::Malformed) => !well_formed(data@),
            Err(InputError::TooManyRecords) => well_formed(data@) && records(data@).len()
                > MAX_RECORDS,
        },
{
    match check_records(data) {
        Ok(_) => Ok(process_chunk(data)),
        Err(err) => Err(err),
    }
}

} // verus!
