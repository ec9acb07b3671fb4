//! A buffer that arrives block by block: lines that a block completes are
//! folded in at once, an unfinished line waits for the next block.

use crate::aggregate::fold_in;
use crate::aggregate::lemma_fold_in_is_merge;
use crate::aggregate::lemma_merge_associative;
use crate::aggregate::lemma_merge_empty;
use crate::aggregate::lemma_readings_concat;
use crate::aggregate::lemma_readings_push;
use crate::aggregate::lemma_tally_of_concat;
use crate::aggregate::lemma_tally_of_empty;
use crate::aggregate::lemma_tally_of_push;
use crate::aggregate::merge_tallies;
use crate::aggregate::readings_of;
use crate::aggregate::tally_of;
use crate::aggregate::Tally;
use crate::chunk::try_process_line;
use crate::merge::counts_fit;
use crate::records::is_record;
use crate::records::lemma_find_byte_is;
use crate::records::lemma_records_concat;
use crate::records::line_at;
use crate::records::next_start;
use crate::records::record_of;
use crate::records::records;
use crate::records::records_from;
use crate::records::slice_range;
use crate::records::well_formed;
use crate::records::well_formed_from;
use crate::records::InputError;
use crate::records::Record;
use crate::records::NEWLINE;
use crate::stats::Summary;
use crate::table::StationTable;
use vstd::prelude::*;

verus! {

/// The place behind the last line terminator, or zero where there is none.
pub open spec fn last_line_start(s: Seq<u8>) -> int
    decreases s.len(),
{
    if s.len() == 0 {
        0
    } else if s.last() == NEWLINE {
        s.len() as int
    } else {
        last_line_start(s.drop_last())
    }
}

/// The lines that are complete: everything up to the last line terminator.
pub open spec fn complete_part(s: Seq<u8>) -> Seq<u8> {
    s.subrange(0, last_line_start(s))
}

/// The line that is not complete yet: what follows the last line
/// terminator.
pub open spec fn pending_part(s: Seq<u8>) -> Seq<u8> {
    s.subrange(last_line_start(s), s.len() as int)
}

/// No byte of `s` is a line terminator.
pub open spec fn no_newline(s: Seq<u8>) -> bool {
    forall|j: int| 0 <= j < s.len() ==> s[j] != NEWLINE
}

/// The place behind the last line terminator lies within the sequence,
/// directly behind a line terminator unless it is zero, and no line
/// terminator follows it.
pub proof fn lemma_last_line_start(s: Seq<u8>)
    ensures
        0 <= last_line_start(s) <= s.len(),
        last_line_start(s) == 0 || s[last_line_start(s) - 1] == NEWLINE,
        forall|j: int| last_line_start(s) <= j < s.len() ==> s[j] != NEWLINE,
        no_newline(pending_part(s)),
        complete_part(s) + pending_part(s) == s,
        complete_part(s).len() == 0 || complete_part(s).last() == NEWLINE,
    decreases s.len(),
{
    if s.len() > 0 && s.last() != NEWLINE {
        let head = s.drop_last();
        lemma_last_line_start(head);
        assert forall|j: int| last_line_start(s) <= j < s.len() implies s[j] != NEWLINE by {
            if j < head.len() {
                assert(head[j] == s[j]);
            }
        }
        assert(last_line_start(s) > 0 ==> s[last_line_start(s) - 1] == head[last_line_start(s)
            - 1]);
    }
    assert(no_newline(pending_part(s))) by {
        assert forall|j: int| 0 <= j < pending_part(s).len() implies pending_part(s)[j]
            != NEWLINE by {
            assert(pending_part(s)[j] == s[last_line_start(s) + j]);
        }
    }
    assert(complete_part(s) + pending_part(s) =~= s);
}

/// A place directly behind a line terminator, or zero, that no line
/// terminator follows is the place behind the last line terminator.
pub proof fn lemma_last_line_start_is(s: Seq<u8>, at: int)
    requires
        0 <= at <= s.len(),
        at == 0 || s[at - 1] == NEWLINE,
        forall|j: int| at <= j < s.len() ==> s[j] != NEWLINE,
    ensures
        last_line_start(s) == at,
    decreases s.len(),
{
    if s.len() > 0 && s.last() != NEWLINE {
        lemma_last_line_start_is(s.drop_last(), at);
    }
}

/// One line with its terminator holds one record, and is well formed
/// exactly when the line is a record.
pub proof fn lemma_one_line(line: Seq<u8>)
    requires
        no_newline(line),
    ensures
        records(line.push(NEWLINE)) == seq![record_of(line)],
        well_formed(line.push(NEWLINE)) == is_record(line),
{
    let s = line.push(NEWLINE);
    lemma_find_byte_is(s, NEWLINE, 0, line.len() as int);
    assert(line_at(s, 0) =~= line);
    assert(next_start(s, 0) == s.len());
    assert(records_from(s, s.len() as int) =~= Seq::<Record>::empty());
    assert(records(s) =~= seq![record_of(line)]);
    assert(well_formed_from(s, s.len() as int));
}

/// What is left at the end of a stream without a line terminator holds one
/// record, or none where nothing is left.
pub proof fn lemma_last_line(line: Seq<u8>)
    requires
        no_newline(line),
    ensures
        line.len() == 0 ==> records(line) == Seq::<Record>::empty() && well_formed(line),
        line.len() > 0 ==> records(line) == seq![record_of(line)] && well_formed(line)
            == is_record(line),
{
    if line.len() > 0 {
        lemma_find_byte_is(line, NEWLINE, 0, line.len() as int);
        assert(line_at(line, 0) =~= line);
        assert(next_start(line, 0) == line.len());
        assert(records_from(line, line.len() as int) =~= Seq::<Record>::empty());
        assert(records(line) =~= seq![record_of(line)]);
        assert(well_formed_from(line, line.len() as int));
    }
}

/// One more block: the complete lines of a stream and the block are the
/// complete lines of the stream, followed by the lines that the block
/// completes when it comes behind the pending line; what is pending
/// afterwards is what that leaves pending.
pub proof fn lemma_stream_step(x: Seq<u8>, b: Seq<u8>)
    ensures
        complete_part(x + b) == complete_part(x) + complete_part(pending_part(x) + b),
        pending_part(x + b) == pending_part(pending_part(x) + b),
        records(complete_part(x + b)) == records(complete_part(x)) + records(
            complete_part(pending_part(x) + b),
        ),
        well_formed(complete_part(x + b)) == (well_formed(complete_part(x)) && well_formed(
            complete_part(pending_part(x) + b),
        )),
{
    let c = complete_part(x);
    let p = pending_part(x);
    let t = p + b;
    lemma_last_line_start(x);
    lemma_last_line_start(t);
    let k = last_line_start(t);
    assert(x + b =~= c + t);
    let at = c.len() + k;
    assert(at == 0 || (x + b)[at - 1] == NEWLINE) by {
        if k > 0 {
            assert((c + t)[c.len() + k - 1] == t[k - 1]);
        } else if c.len() > 0 {
            assert((c + t)[c.len() - 1] == c[c.len() - 1]);
        }
    }
    assert forall|j: int| at <= j < (x + b).len() implies (x + b)[j] != NEWLINE by {
        assert((c + t)[j] == t[j - c.len()]);
    }
    lemma_last_line_start_is(x + b, at);
    assert(complete_part(x + b) =~= c + complete_part(t));
    assert(pending_part(x + b) =~= pending_part(t));
    lemma_records_concat(c, complete_part(t));
}

/// At the end of a stream: its records are those of its complete lines,
/// followed by the record of the pending line where there is one.
pub proof fn lemma_stream_end(x: Seq<u8>)
    ensures
        records(x) == records(complete_part(x)) + records(pending_part(x)),
        well_formed(x) == (well_formed(complete_part(x)) && well_formed(pending_part(x))),
{
    lemma_last_line_start(x);
    lemma_records_concat(complete_part(x), pending_part(x));
}

/// More records never lower the number of readings under a key.
pub proof fn lemma_counts_grow(a: Seq<Record>, b: Seq<Record>, key: Seq<u8>)
    ensures
        readings_of(a + b, key).len() == readings_of(a, key).len() + readings_of(b, key).len(),
        tally_of(a).contains_key(key) ==> tally_of(a + b).contains_key(key) && tally_of(
            a + b,
        )[key].count >= tally_of(a)[key].count,
{
    lemma_readings_concat(a, b, key);
}

/// The next line of a stream: behind a prefix `p` that ends between two
/// lines comes `line` with its terminator.  The records of the longer
/// prefix are those of `p` and the record of `line`; and if the complete
/// lines of the stream are well formed, so is the longer prefix.
pub proof fn lemma_next_line(s: Seq<u8>, p: Seq<u8>, line: Seq<u8>)
    requires
        p.len() == 0 || p.last() == NEWLINE,
        no_newline(line),
        p.len() + line.len() < s.len(),
        s.subrange(0, (p.len() + line.len() + 1) as int) == p + line.push(NEWLINE),
    ensures
        records(p + line.push(NEWLINE)) == records(p).push(record_of(line)),
        well_formed(p + line.push(NEWLINE)) == (well_formed(p) && is_record(line)),
        well_formed(complete_part(s)) ==> well_formed(p + line.push(NEWLINE)),
        forall|key: Seq<u8>|
            readings_of(records(complete_part(s)), key).len() >= #[trigger] readings_of(
                records(p + line.push(NEWLINE)),
                key,
            ).len(),
{
    let p2 = p + line.push(NEWLINE);
    let n = p2.len() as int;
    lemma_one_line(line);
    lemma_records_concat(p, line.push(NEWLINE));
    assert(records(p) + seq![record_of(line)] =~= records(p).push(record_of(line)));
    lemma_last_line_start(s);
    assert(s[n - 1] == p2[n - 1]);
    assert(n <= last_line_start(s));
    let rest = s.subrange(n, last_line_start(s));
    assert(complete_part(s) =~= p2 + rest);
    lemma_records_concat(p2, rest);
    assert forall|key: Seq<u8>|
        readings_of(records(complete_part(s)), key).len() >= #[trigger] readings_of(
            records(p2),
            key,
        ).len() by {
        lemma_counts_grow(records(p2), records(rest), key);
    }
}

/// Folding a record into what a mapping and some records have come to is
/// taking the mapping together with the tally of one more record.
pub proof fn lemma_fold_in_merged(start: Tally, done: Seq<Record>, rec: Record)
    ensures
        fold_in(merge_tallies(start, tally_of(done)), rec.key, rec.value) == merge_tallies(
            start,
            tally_of(done.push(rec)),
        ),
{
    let one = Map::<Seq<u8>, Summary>::empty().insert(rec.key, Summary::single(rec.value));
    lemma_tally_of_push(done, rec);
    lemma_fold_in_is_merge(merge_tallies(start, tally_of(done)), rec.key, rec.value);
    lemma_fold_in_is_merge(tally_of(done), rec.key, rec.value);
    lemma_merge_associative(start, tally_of(done), one);
}

/// Where a key's counter is full, no tally that takes in one more reading
/// of that key fits.
pub proof fn lemma_full_counter(start: Tally, done: Seq<Record>, rec: Record, all: Seq<Record>)
    requires
        merge_tallies(start, tally_of(done)).contains_key(rec.key),
        merge_tallies(start, tally_of(done))[rec.key].count >= u32::MAX,
        forall|key: Seq<u8>|
            readings_of(all, key).len() >= #[trigger] readings_of(done.push(rec), key).len(),
    ensures
        !counts_fit(merge_tallies(start, tally_of(all))),
{
    let key = rec.key;
    lemma_readings_push(done, rec, key);
    assert(readings_of(all, key).len() >= readings_of(done.push(rec), key).len());
    let merged = merge_tallies(start, tally_of(all));
    assert(tally_of(all).contains_key(key));
    assert(merged.contains_key(key));
    assert(merged[key].count > u32::MAX);
}

/// What has been folded in when the scan of a block stands at the line
/// start `start`: nothing at the start of the block, else the pending line
/// and the block up to `start`.
pub open spec fn processed(carry: Seq<u8>, block: Seq<u8>, start: int) -> Seq<u8> {
    if start == 0 {
        Seq::empty()
    } else {
        carry + block.subrange(0, start)
    }
}

/// Folds the lines that `block` completes into `map`, the first of them
/// with the pending line `carry` in front, and leaves in `carry` what is
/// pending afterwards.  Stops at a line that is no record, and at a record
/// whose counter is full.
fn fold_block(block: &[u8], carry: &mut Vec<u8>, map: &mut StationTable) -> (result: Result<
    (),
    InputError,
>)
    requires
        old(map).wf(),
        no_newline(old(carry)@),
    ensures
        final(map).wf(),
        match result {
            Ok(()) => well_formed(complete_part(old(carry)@ + block@)) && final(carry)@
                == pending_part(old(carry)@ + block@) && final(map)@ == merge_tallies(
                old(map)@,
                tally_of(records(complete_part(old(carry)@ + block@))),
            ),
            Err(InputError::Malformed) => !well_formed(complete_part(old(carry)@ + block@)),
            Err(InputError::TooManyRecords) => !counts_fit(
                merge_tallies(old(map)@, tally_of(records(complete_part(old(carry)@ + block@)))),
            ),
        },
{
    let ghost carry0 = carry@;
    let ghost map0 = map@;
    let ghost s = carry0 + block@;
    let mut start: usize = 0;
    let mut idx: usize = 0;
    proof {
        lemma_tally_of_empty();
        lemma_merge_empty(map0);
    }
    while idx < block.len()
        invariant
            carry0 == old(carry)@,
            map0 == old(map)@,
            s == carry0 + block@,
            no_newline(carry0),
            0 <= start <= idx <= block@.len(),
            forall|j: int| start <= j < idx ==> block@[j] != NEWLINE,
            start > 0 ==> block@[start - 1] == NEWLINE,
            carry@ == (if start == 0 {
                carry0
            } else {
                Seq::<u8>::empty()
            }),
            map.wf(),
            well_formed(processed(carry0, block@, start as int)),
            map@ == merge_tallies(map0, tally_of(records(processed(carry0, block@, start as int)))),
        decreases block@.len() - idx,
    {
        if block[idx] == NEWLINE {
            let ghost line = carry@ + block@.subrange(start as int, idx as int);
            let ghost p = processed(carry0, block@, start as int);
            let ghost rec = record_of(line);
            proof {
                assert(no_newline(line)) by {
                    assert forall|j: int| 0 <= j < line.len() implies line[j] != NEWLINE by {
                        if j < carry@.len() {
                            assert(line[j] == carry0[j]);
                        } else {
                            assert(line[j] == block@[start + (j - carry@.len())]);
                        }
                    }
                }
                assert(p.len() == 0 || p.last() == NEWLINE) by {
                    if start > 0 {
                        assert(p[p.len() - 1] == block@[start - 1]);
                    }
                }
                assert(s.subrange(0, (p.len() + line.len() + 1) as int) =~= p + line.push(NEWLINE));
                assert(processed(carry0, block@, idx + 1) =~= p + line.push(NEWLINE));
                lemma_next_line(s, p, line);
                lemma_fold_in_merged(map0, records(p), rec);
            }
            let outcome: Result<(), InputError> = if carry.is_empty() {
                let part: &[u8] = slice_range(block, start, idx);
                assert(part@ =~= line);
                try_process_line(part, map)
            } else {
                carry.extend_from_slice(slice_range(block, start, idx));
                assert(carry@ =~= line);
                let outcome = try_process_line(carry.as_slice(), map);
                carry.clear();
                outcome
            };
            match outcome {
                Err(InputError::Malformed) => {
                    return Err(InputError::Malformed);
                },
                Err(InputError::TooManyRecords) => {
                    proof {
                        lemma_full_counter(map0, records(p), rec, records(complete_part(s)));
                    }
                    return Err(InputError::TooManyRecords);
                },
                Ok(()) => {},
            }
            start = idx + 1;
        }
        idx += 1;
    }
    if start < block.len() {
        carry.extend_from_slice(slice_range(block, start, block.len()));
    }
    proof {
        let at: int = if start == 0 {
            0
        } else {
            carry0.len() + start
        };
        assert forall|j: int| at <= j < s.len() implies s[j] != NEWLINE by {
            if j < carry0.len() {
                assert(s[j] == carry0[j]);
            } else {
                assert(s[j] == block@[j - carry0.len()]);
            }
        }
        if start > 0 {
            assert(s[at - 1] == block@[start - 1]);
        }
        lemma_last_line_start_is(s, at);
        assert(complete_part(s) =~= processed(carry0, block@, start as int));
        assert(carry@ =~= pending_part(s));
    }
    Ok(())
}

/// The state of a stream between two blocks: what its complete lines have
/// come to, and the line that is still pending.
pub struct LineStream {
    map: StationTable,
    carry: Vec<u8>,
    fed: Ghost<Seq<u8>>,
}

impl LineStream {
    /// All bytes that the stream was fed, in order.
    pub closed spec fn fed(&self) -> Seq<u8> {
        self.fed@
    }

    /// The complete lines are well formed and folded in, and the pending
    /// line is held back.
    pub closed spec fn wf(&self) -> bool {
        &&& self.map.wf()
        &&& self.carry@ == pending_part(self.fed@)
        &&& well_formed(complete_part(self.fed@))
        &&& self.map@ == tally_of(records(complete_part(self.fed@)))
    }

    /// A stream that was fed nothing.
    pub fn new() -> (stream: LineStream)
        ensures
            stream.wf(),
            stream.fed() == Seq::<u8>::empty(),
    {
        proof {
            lemma_tally_of_empty();
            assert(complete_part(Seq::<u8>::empty()) =~= Seq::<u8>::empty());
            assert(pending_part(Seq::<u8>::empty()) =~= Seq::<u8>::empty());
        }
        LineStream { map: StationTable::new(), carry: Vec::new(), fed: Ghost(Seq::empty()) }
    }

    /// Feeds the next block.  The lines that it completes are folded in; an
    /// unfinished line at its end waits for the next block.  After an error
    /// the stream is of no further use.
    pub fn feed(&mut self, block: &[u8]) -> (result: Result<(), InputError>)
        requires
            old(self).wf(),
        ensures
            match result {
                Ok(()) => final(self).wf() && final(self).fed() == old(self).fed() + block@
                    && well_formed(complete_part(old(self).fed() + block@)) && counts_fit(
                    tally_of(records(complete_part(old(self).fed() + block@))),
                ),
                Err(InputError::Malformed) => !well_formed(
                    complete_part(old(self).fed() + block@),
                ),
                Err(InputError::TooManyRecords) => !counts_fit(
                    tally_of(records(complete_part(old(self).fed() + block@))),
                ),
            },
    {
        let ghost x = self.fed@;
        proof {
            lemma_last_line_start(x);
            lemma_stream_step(x, block@);
            lemma_tally_of_concat(
                records(complete_part(x)),
                records(complete_part(pending_part(x) + block@)),
            );
        }
        let result = fold_block(block, &mut self.carry, &mut self.map);
        proof {
            self.map.lemma_counts_fit();
        }
        self.fed = Ghost(x + block@);
        result
    }

    /// Ends the stream: folds the pending line in, where there is one, and
    /// hands out the mapping of all that was fed.
    pub fn finish(self) -> (result: Result<StationTable, InputError>)
        requires
            self.wf(),
        ensures
            match result {
                Ok(map) => well_formed(self.fed()) && counts_fit(tally_of(records(self.fed())))
                    && map@ == tally_of(records(self.fed())) && map.wf(),
                Err(InputError::Malformed) => !well_formed(self.fed()),
                Err(InputError::TooManyRecords) => !counts_fit(tally_of(records(self.fed()))),
            },
    {
        let ghost x = self.fed@;
        let ghost done = records(complete_part(x));
        let ghost line = pending_part(x);
        let ghost rec = record_of(line);
        let mut map = self.map;
        let carry = self.carry;
        proof {
            lemma_last_line_start(x);
            lemma_stream_end(x);
            lemma_last_line(line);
            assert(map@ == tally_of(done));
            assert(carry@ == line);
        }
        if carry.len() == 0 {
            proof {
                assert(done + records(line) =~= done);
                map.lemma_counts_fit();
            }
            return Ok(map);
        }
        proof {
            assert(records(x) =~= done.push(rec));
            lemma_tally_of_push(done, rec);
            lemma_merge_empty(tally_of(done));
            lemma_merge_empty(tally_of(done.push(rec)));
        }
        match try_process_line(carry.as_slice(), &mut map) {
            Ok(()) => {
                proof {
                    map.lemma_counts_fit();
                }
                Ok(map)
            },
            Err(InputError::Malformed) => Err(InputError::Malformed),
            Err(InputError::TooManyRecords) => {
                proof {
                    lemma_full_counter(Map::empty(), done, rec, done.push(rec));
                }
                Err(InputError::TooManyRecords)
            },
        }
    }
}

} // verus!
