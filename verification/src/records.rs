//! Records in a buffer: how a run of bytes splits into lines, and a line
//! into a key and a reading.

use crate::numeral::is_numeral;
use crate::numeral::is_valid_numeral;
use crate::numeral::numeral_value;
use vstd::prelude::*;

verus! {

/// The line terminator.
pub const NEWLINE: u8 = 10;

/// The byte between a key and its reading.
pub const SEMICOLON: u8 = 59;

/// The most records that one buffer may hold: what the counter of a key can
/// count.
pub const MAX_RECORDS: usize = 0xffff_ffff;

/// Why a buffer cannot be summarised.
#[derive(Clone, Copy, Debug, PartialEq, Eq, Structural)]
pub enum InputError {
    /// Some line is not a key, a semicolon and a numeral.
    Malformed,
    /// There are more readings than a counter can count.
    TooManyRecords,
}

/// One record: the bytes of its key and its reading in tenths.
pub struct Record {
    pub key: Seq<u8>,
    pub value: int,
}

/// The place of the first `b` in `s` at or after `from`; the length of `s`
/// where there is none.
pub open spec fn find_byte(s: Seq<u8>, b: u8, from: int) -> int
    decreases s.len() - from,
{
    if from < 0 || from >= s.len() {
        s.len() as int
    } else if s[from] == b {
        from
    } else {
        find_byte(s, b, from + 1)
    }
}

/// Where `find_byte` stops: not before `from`, with no `b` on the way, and
/// on a `b` unless it is at the end.
pub proof fn lemma_find_byte(s: Seq<u8>, b: u8, from: int)
    requires
        0 <= from <= s.len(),
    ensures
        from <= find_byte(s, b, from) <= s.len(),
        forall|j: int| from <= j < find_byte(s, b, from) ==> s[j] != b,
        find_byte(s, b, from) < s.len() ==> s[find_byte(s, b, from)] == b,
    decreases s.len() - from,
{
    if from < s.len() && s[from] != b {
        lemma_find_byte(s, b, from + 1);
    }
}

/// A place that has what `lemma_find_byte` states is the place that
/// `find_byte` gives.
pub proof fn lemma_find_byte_is(s: Seq<u8>, b: u8, from: int, at: int)
    requires
        0 <= from <= at <= s.len(),
        forall|j: int| from <= j < at ==> s[j] != b,
        at < s.len() ==> s[at] == b,
    ensures
        find_byte(s, b, from) == at,
    decreases at - from,
{
    if from < at {
        lemma_find_byte_is(s, b, from + 1, at);
    }
}

/// The key of a line: what stands before its first semicolon.
pub open spec fn key_of(line: Seq<u8>) -> Seq<u8> {
    line.subrange(0, find_byte(line, SEMICOLON, 0))
}

/// The text of the reading of a line: what follows its first semicolon.
pub open spec fn text_of(line: Seq<u8>) -> Seq<u8> {
    line.subrange(find_byte(line, SEMICOLON, 0) + 1, line.len() as int)
}

/// A line is a record when it holds a semicolon and what follows the first
/// one is a numeral.
pub open spec fn is_record(line: Seq<u8>) -> bool {
    find_byte(line, SEMICOLON, 0) < line.len() && is_numeral(text_of(line))
}

/// The reading of a line: the value of the numeral behind its first
/// semicolon.
pub open spec fn value_of(line: Seq<u8>) -> int {
    numeral_value(text_of(line))
}

/// The record that a line holds.
pub open spec fn record_of(line: Seq<u8>) -> Record {
    Record { key: key_of(line), value: value_of(line) }
}

/// Where the line that starts at `i` ends: at the next line terminator, or
/// at the end of the buffer.
pub open spec fn line_end(data: Seq<u8>, i: int) -> int {
    find_byte(data, NEWLINE, i)
}

/// The line that starts at `i`, without its terminator.
pub open spec fn line_at(data: Seq<u8>, i: int) -> Seq<u8> {
    data.subrange(i, line_end(data, i))
}

/// Where the line after the one at `i` starts.
pub open spec fn next_start(data: Seq<u8>, i: int) -> int {
    if line_end(data, i) < data.len() {
        line_end(data, i) + 1
    } else {
        data.len() as int
    }
}

/// The records of the lines from `i` on, in the order of the buffer.
pub open spec fn records_from(data: Seq<u8>, i: int) -> Seq<Record>
    decreases data.len() - i,
{
    if i < 0 || i >= data.len() {
        Seq::empty()
    } else {
        proof {
            lemma_find_byte(data, NEWLINE, i);
        }
        seq![record_of(line_at(data, i))] + records_from(data, next_start(data, i))
    }
}

/// Every line from `i` on is a record.
pub open spec fn well_formed_from(data: Seq<u8>, i: int) -> bool
    decreases data.len() - i,
{
    if i < 0 || i >= data.len() {
        true
    } else {
        proof {
            lemma_find_byte(data, NEWLINE, i);
        }
        is_record(line_at(data, i)) && well_formed_from(data, next_start(data, i))
    }
}

/// The records of a buffer.
pub open spec fn records(data: Seq<u8>) -> Seq<Record> {
    records_from(data, 0)
}

/// The buffer is zero or more complete records, one per line; the last line
/// may lack its terminator.
pub open spec fn well_formed(data: Seq<u8>) -> bool {
    well_formed_from(data, 0)
}

/// A boundary between lines: the start, the end, or just behind a line
/// terminator.
pub open spec fn is_line_start(data: Seq<u8>, i: int) -> bool {
    0 <= i <= data.len() && (i == 0 || i == data.len() || data[i - 1] == NEWLINE)
}

/// The line after the one at `i` starts behind `i`, at a boundary.
pub proof fn lemma_next_start(data: Seq<u8>, i: int)
    requires
        0 <= i < data.len(),
    ensures
        i < next_start(data, i) <= data.len(),
        i <= line_end(data, i) <= data.len(),
        is_line_start(data, next_start(data, i)),
{
    lemma_find_byte(data, NEWLINE, i);
}

/// A record takes at least one byte, so a buffer holds no more records than
/// bytes.
pub proof fn lemma_records_len(data: Seq<u8>, i: int)
    requires
        0 <= i <= data.len(),
    ensures
        records_from(data, i).len() <= data.len() - i,
    decreases data.len() - i,
{
    if i < data.len() {
        lemma_next_start(data, i);
        lemma_records_len(data, next_start(data, i));
    }
}

/// In a record, the first semicolon from the start of the line is the
/// semicolon of the record, and the next line terminator after it ends the
/// line.
pub proof fn lemma_record_layout(data: Seq<u8>, i: int)
    requires
        0 <= i < data.len(),
        is_record(line_at(data, i)),
    ensures
        i <= find_byte(data, SEMICOLON, i) < line_end(data, i),
        find_byte(data, SEMICOLON, i) == i + find_byte(line_at(data, i), SEMICOLON, 0),
        find_byte(data, NEWLINE, find_byte(data, SEMICOLON, i) + 1) == line_end(data, i),
        key_of(line_at(data, i)) == data.subrange(i, find_byte(data, SEMICOLON, i)),
        text_of(line_at(data, i)) == data.subrange(
            find_byte(data, SEMICOLON, i) + 1,
            line_end(data, i),
        ),
{
    let line = line_at(data, i);
    let e = line_end(data, i);
    let s = find_byte(line, SEMICOLON, 0);
    lemma_find_byte(data, NEWLINE, i);
    lemma_find_byte(line, SEMICOLON, 0);
    assert(forall|j: int| 0 <= j < line.len() ==> line[j] == data[i + j]);
    assert forall|j: int| i <= j < i + s implies data[j] != SEMICOLON by {
        assert(line[j - i] != SEMICOLON);
    }
    assert(data[i + s] == line[s]);
    lemma_find_byte_is(data, SEMICOLON, i, i + s);
    lemma_find_byte_is(data, NEWLINE, i + s + 1, e);
    assert(key_of(line) =~= data.subrange(i, i + s));
    assert(text_of(line) =~= data.subrange(i + s + 1, e));
}

/// Behind a first part `a`, the places found in `a + b` are those found in
/// `b`, moved by the length of `a`.
pub proof fn lemma_find_byte_shift(a: Seq<u8>, b: Seq<u8>, t: u8, j: int)
    requires
        0 <= j <= b.len(),
    ensures
        find_byte(a + b, t, a.len() + j) == a.len() + find_byte(b, t, j),
{
    lemma_find_byte(b, t, j);
    let r = find_byte(b, t, j);
    assert(forall|k: int| 0 <= k < b.len() ==> (a + b)[a.len() + k] == b[k]);
    assert forall|k: int| a.len() + j <= k < a.len() + r implies (a + b)[k] != t by {
        assert((a + b)[k] == b[k - a.len()]);
    }
    lemma_find_byte_is(a + b, t, a.len() + j, a.len() + r);
}

/// Behind a first part `a`, the records of `a + b` are those of `b`.
pub proof fn lemma_records_shift(a: Seq<u8>, b: Seq<u8>, j: int)
    requires
        0 <= j <= b.len(),
    ensures
        records_from(a + b, a.len() + j) == records_from(b, j),
        well_formed_from(a + b, a.len() + j) == well_formed_from(b, j),
    decreases b.len() - j,
{
    if j < b.len() {
        lemma_find_byte_shift(a, b, NEWLINE, j);
        lemma_next_start(b, j);
        assert(line_at(a + b, a.len() + j) =~= line_at(b, j));
        assert(next_start(a + b, a.len() + j) == a.len() + next_start(b, j));
        lemma_records_shift(a, b, next_start(b, j));
    }
}

/// Within a first part `a` that ends with a line terminator, the lines of
/// `a + b` are the lines of `a`, followed by those of `b`.
pub proof fn lemma_records_prefix(a: Seq<u8>, b: Seq<u8>, i: int)
    requires
        0 <= i <= a.len(),
        a.len() == 0 || a.last() == NEWLINE,
    ensures
        records_from(a + b, i) == records_from(a, i) + records_from(b, 0),
        well_formed_from(a + b, i) == (well_formed_from(a, i) && well_formed_from(b, 0)),
    decreases a.len() - i,
{
    if i == a.len() {
        lemma_records_shift(a, b, 0);
        assert(records_from(a, i) + records_from(b, 0) =~= records_from(b, 0));
    } else {
        lemma_find_byte(a, NEWLINE, i);
        let e = find_byte(a, NEWLINE, i);
        assert(e < a.len()) by {
            if e == a.len() {
                assert(a[a.len() - 1] != NEWLINE);
            }
        }
        assert(forall|k: int| 0 <= k < a.len() ==> (a + b)[k] == a[k]);
        lemma_find_byte_is(a + b, NEWLINE, i, e);
        assert(line_at(a + b, i) =~= line_at(a, i));
        assert(next_start(a + b, i) == next_start(a, i));
        lemma_records_prefix(a, b, next_start(a, i));
        assert(records_from(a + b, i) =~= records_from(a, i) + records_from(b, 0));
    }
}

/// Cutting a buffer between two lines cuts its records in two: the records
/// of the whole are those of the first part followed by those of the second,
/// and the whole is well formed exactly when both parts are.
pub proof fn lemma_records_concat(a: Seq<u8>, b: Seq<u8>)
    requires
        a.len() == 0 || a.last() == NEWLINE || b.len() == 0,
    ensures
        records(a + b) == records(a) + records(b),
        well_formed(a + b) == (well_formed(a) && well_formed(b)),
{
    if a.len() == 0 || a.last() == NEWLINE {
        lemma_records_prefix(a, b, 0);
    } else {
        assert(a + b =~= a);
        assert(records(a) + records(b) =~= records(a));
    }
}

/// Cutting a buffer at a line boundary: see `lemma_records_concat`.
pub proof fn lemma_records_split(data: Seq<u8>, at: int)
    requires
        is_line_start(data, at),
    ensures
        records(data) == records(data.subrange(0, at)) + records(
            data.subrange(at, data.len() as int),
        ),
        well_formed(data) == (well_formed(data.subrange(0, at)) && well_formed(
            data.subrange(at, data.len() as int),
        )),
{
    let a = data.subrange(0, at);
    let b = data.subrange(at, data.len() as int);
    assert(a + b =~= data);
    lemma_records_concat(a, b);
}

/// The place of the first semicolon at or after `start`, or the length of
/// `data`.
pub fn find_semicolon(data: &[u8], start: usize) -> (at: usize)
    requires
        start <= data.len(),
    ensures
        at == find_byte(data@, SEMICOLON, start as int),
        start <= at <= data.len(),
{
    let mut i: usize = start;
    while i < data.len() && data[i] != SEMICOLON
        invariant
            start <= i <= data.len(),
            forall|j: int| start <= j < i ==> data@[j] != SEMICOLON,
        decreases data.len() - i,
    {
        i += 1;
    }
    proof {
        lemma_find_byte_is(data@, SEMICOLON, start as int, i as int);
    }
    i
}

/// The place of the first line terminator at or after `start`, or the
/// length of `data`.
pub fn find_newline(data: &[u8], start: usize) -> (at: usize)
    requires
        start <= data.len(),
    ensures
        at == find_byte(data@, NEWLINE, start as int),
        start <= at <= data.len(),
{
    let mut i: usize = start;
    while i < data.len() && data[i] != NEWLINE
        invariant
            start <= i <= data.len(),
            forall|j: int| start <= j < i ==> data@[j] != NEWLINE,
        decreases data.len() - i,
    {
        i += 1;
    }
    proof {
        lemma_find_byte_is(data@, NEWLINE, start as int, i as int);
    }
    i
}

/// The record that starts at `start`: its key, the text of its reading, and
/// the place where the next line starts.  The two slices borrow from `data`.
pub fn next_record<'a>(data: &'a [u8], start: usize) -> (found: (&'a [u8], &'a [u8], usize))
    requires
        start < data.len(),
        is_record(line_at(data@, start as int)),
    ensures
        found.0@ == key_of(line_at(data@, start as int)),
        found.1@ == text_of(line_at(data@, start as int)),
        found.2 == next_start(data@, start as int),
        start < found.2 <= data.len(),
{
    proof {
        lemma_next_start(data@, start as int);
        lemma_record_layout(data@, start as int);
    }
    let semi_pos: usize = find_semicolon(data, start);
    let temp_start: usize = semi_pos + 1;
    let newline_pos: usize = find_newline(data, temp_start);
    let next: usize = if newline_pos < data.len() {
        newline_pos + 1
    } else {
        data.len()
    };
    (slice_range(data, start, semi_pos), slice_range(data, temp_start, newline_pos), next)
}

/// Tells whether a line, taken without its terminator, is a record.
pub fn is_record_line(line: &[u8]) -> (ok: bool)
    ensures
        ok == is_record(line@),
{
    let semi: usize = find_semicolon(line, 0);
    semi < line.len() && is_valid_numeral(slice_range(line, semi + 1, line.len()))
}

/// Counts the records of a buffer, or tells that some line is none.
pub fn count_records(data: &[u8]) -> (count: Option<usize>)
    ensures
        count is Some <==> well_formed(data@),
        count is Some ==> count.unwrap() == records(data@).len(),
{
    let len: usize = data.len();
    let mut i: usize = 0;
    let mut n: usize = 0;
    while i < len
        invariant
            len == data.len(),
            0 <= i <= len,
            n <= i,
            well_formed(data@) == well_formed_from(data@, i as int),
            records(data@).len() == n + records_from(data@, i as int).len(),
        decreases len - i,
    {
        proof {
            lemma_next_start(data@, i as int);
        }
        let end: usize = find_newline(data, i);
        if !is_record_line(slice_range(data, i, end)) {
            return None;
        }
        n += 1;
        i = if end < len { end + 1 } else { len };
    }
    Some(n)
}

/// Judges the outcome of counting: no count means a malformed buffer, a
/// count above the limit means too many records.
pub fn check_count(count: Option<usize>) -> (result: Result<usize, InputError>)
    ensures
        match result {
            Ok(n) => count == Some(n) && n <= MAX_RECORDS,
            Err(InputError::Malformed) => count is None,
            Err(InputError::TooManyRecords) => count is Some && count.unwrap() > MAX_RECORDS,
        },
{
    match count {
        None => Err(InputError::Malformed),
        Some(n) => {
            if n > MAX_RECORDS {
                Err(InputError::TooManyRecords)
            } else {
                Ok(n)
            }
        },
    }
}

/// Checks that a buffer is well formed and holds no more records than the
/// limit, and gives their number.
pub fn check_records(data: &[u8]) -> (result: Result<usize, InputError>)
    ensures
        match result {
            Ok(n) => well_formed(data@) && n == records(data@).len() && n <= MAX_RECORDS,
            Err(InputError::Malformed) => !well_formed(data@),
            Err(InputError::TooManyRecords) => well_formed(data@) && records(data@).len()
                > MAX_RECORDS,
        },
{
    check_count(count_records(data))
}

/// The part of a slice from `from` up to `to`.
pub fn slice_range(data: &[u8], from: usize, to: usize) -> (part: &[u8])
    requires
        from <= to <= data.len(),
    ensures
        part@ == data@.subrange(from as int, to as int),
{
    &data[from..to]
}

} // verus!
