//! What aggregation computes: for each key, the summary of its readings.

use crate::records::Record;
use crate::stats::Summary;
use vstd::prelude::*;

verus! {

/// A mapping from keys to summaries.
pub type Tally = Map<Seq<u8>, Summary>;

/// The total of a sequence of readings.
pub open spec fn total(vals: Seq<int>) -> int
    decreases vals.len(),
{
    if vals.len() == 0 {
        0
    } else {
        total(vals.drop_last()) + vals.last()
    }
}

/// The summary of a non-empty sequence of readings: its smallest and its
/// largest member, its total and its length.
pub open spec fn summary_of(vals: Seq<int>) -> Summary {
    Summary { min: vals.min(), max: vals.max(), sum: total(vals), count: vals.len() }
}

/// The readings recorded under `key`, in the order of the records.
pub open spec fn readings_of(recs: Seq<Record>, key: Seq<u8>) -> Seq<int>
    decreases recs.len(),
{
    if recs.len() == 0 {
        Seq::empty()
    } else if recs.last().key == key {
        readings_of(recs.drop_last(), key).push(recs.last().value)
    } else {
        readings_of(recs.drop_last(), key)
    }
}

/// The tally of a sequence of records: each key that occurs, with the
/// summary of the readings recorded under it.
pub open spec fn tally_of(recs: Seq<Record>) -> Tally {
    Map::new(
        |key: Seq<u8>| readings_of(recs, key).len() > 0,
        |key: Seq<u8>| summary_of(readings_of(recs, key)),
    )
}

/// A tally with one more reading folded in under `key`.
pub open spec fn fold_in(t: Tally, key: Seq<u8>, value: int) -> Tally {
    if t.contains_key(key) {
        t.insert(key, t[key].push(value))
    } else {
        t.insert(key, Summary::single(value))
    }
}

/// Two tallies taken together: a key of both has its two summaries combined,
/// a key of one keeps its summary.
pub open spec fn merge_tallies(a: Tally, b: Tally) -> Tally {
    Map::new(
        |key: Seq<u8>| a.contains_key(key) || b.contains_key(key),
        |key: Seq<u8>|
            if a.contains_key(key) && b.contains_key(key) {
                a[key].combine(b[key])
            } else if a.contains_key(key) {
                a[key]
            } else {
                b[key]
            },
    )
}

/// One step of taking a sequence of tallies together.
pub open spec fn merge_step() -> spec_fn(Tally, Tally) -> Tally {
    |acc: Tally, t: Tally| merge_tallies(acc, t)
}

/// All tallies of a sequence taken together, from the first to the last.
pub open spec fn merge_all(parts: Seq<Tally>) -> Tally {
    parts.fold_left(Map::empty(), merge_step())
}

/// Every summary of the tally is well formed.
pub open spec fn tally_wf(t: Tally) -> bool {
    forall|key: Seq<u8>| #[trigger] t.contains_key(key) ==> t[key].wf()
}

/// A member of the sequence that is no larger than any other is its
/// smallest.
pub proof fn lemma_min_is(vals: Seq<int>, m: int)
    requires
        vals.contains(m),
        forall|i: int| 0 <= i < vals.len() ==> m <= vals[i],
    ensures
        vals.min() == m,
{
    vals.min_ensures();
}

/// A member of the sequence that is no smaller than any other is its
/// largest.
pub proof fn lemma_max_is(vals: Seq<int>, m: int)
    requires
        vals.contains(m),
        forall|i: int| 0 <= i < vals.len() ==> m >= vals[i],
    ensures
        vals.max() == m,
{
    vals.max_ensures();
}

/// The summary of one reading.
pub proof fn lemma_summary_of_one(v: int)
    ensures
        summary_of(seq![v]) == Summary::single(v),
{
    let s = seq![v];
    assert(s[0] == v);
    lemma_min_is(s, v);
    lemma_max_is(s, v);
    assert(s.drop_last() =~= Seq::<int>::empty());
    assert(total(s.drop_last()) == 0);
}

/// One more reading at the end is one more reading folded in.
pub proof fn lemma_summary_of_push(vals: Seq<int>, v: int)
    requires
        vals.len() > 0,
    ensures
        summary_of(vals.push(v)) == summary_of(vals).push(v),
{
    let w = vals.push(v);
    vals.min_ensures();
    vals.max_ensures();
    let lo = if v < vals.min() { v } else { vals.min() };
    let hi = if v > vals.max() { v } else { vals.max() };
    assert(w[vals.len() as int] == v);
    assert(forall|i: int| 0 <= i < vals.len() ==> w[i] == vals[i]);
    assert(w.contains(lo)) by {
        if v < vals.min() {
        } else {
            let k = choose|k: int| 0 <= k < vals.len() && vals[k] == vals.min();
            assert(w[k] == lo);
        }
    }
    assert(w.contains(hi)) by {
        if v > vals.max() {
        } else {
            let k = choose|k: int| 0 <= k < vals.len() && vals[k] == vals.max();
            assert(w[k] == hi);
        }
    }
    lemma_min_is(w, lo);
    lemma_max_is(w, hi);
    assert(w.drop_last() =~= vals);
}

/// The summary of two runs of readings, one behind the other, is the
/// combination of their summaries.
pub proof fn lemma_summary_of_concat(a: Seq<int>, b: Seq<int>)
    requires
        a.len() > 0,
        b.len() > 0,
    ensures
        summary_of(a + b) == summary_of(a).combine(summary_of(b)),
    decreases b.len(),
{
    let head = b.drop_last();
    let x = b.last();
    assert(b =~= head.push(x));
    assert(a + b =~= (a + head).push(x));
    if head.len() == 0 {
        assert(a + head =~= a);
        assert(b =~= seq![x]);
        lemma_summary_of_one(x);
        lemma_summary_of_push(a, x);
    } else {
        lemma_summary_of_concat(a, head);
        lemma_summary_of_push(a + head, x);
        lemma_summary_of_push(head, x);
        Summary::lemma_combine_associative(summary_of(a), summary_of(head), Summary::single(x));
    }
}

/// The summary of a non-empty sequence is well formed.
pub proof fn lemma_summary_of_wf(vals: Seq<int>)
    requires
        vals.len() > 0,
    ensures
        summary_of(vals).wf(),
    decreases vals.len(),
{
    let head = vals.drop_last();
    let x = vals.last();
    assert(vals =~= head.push(x));
    assert(Summary::single(x).wf()) by (nonlinear_arith);
    if head.len() == 0 {
        assert(vals =~= seq![x]);
        lemma_summary_of_one(x);
    } else {
        lemma_summary_of_wf(head);
        lemma_summary_of_push(head, x);
        Summary::lemma_combine_wf(summary_of(head), Summary::single(x));
    }
}

/// The readings under a key after one more record.
pub proof fn lemma_readings_push(recs: Seq<Record>, r: Record, key: Seq<u8>)
    ensures
        readings_of(recs.push(r), key) == if r.key == key {
            readings_of(recs, key).push(r.value)
        } else {
            readings_of(recs, key)
        },
{
    assert(recs.push(r).drop_last() =~= recs);
}

/// The readings under a key in two runs of records, one behind the other.
pub proof fn lemma_readings_concat(a: Seq<Record>, b: Seq<Record>, key: Seq<u8>)
    ensures
        readings_of(a + b, key) == readings_of(a, key) + readings_of(b, key),
    decreases b.len(),
{
    if b.len() == 0 {
        assert(a + b =~= a);
        assert(readings_of(a, key) + readings_of(b, key) =~= readings_of(a, key));
    } else {
        let head = b.drop_last();
        let x = b.last();
        assert(b =~= head.push(x));
        assert(a + b =~= (a + head).push(x));
        lemma_readings_concat(a, head, key);
        lemma_readings_push(a + head, x, key);
        lemma_readings_push(head, x, key);
        assert(readings_of(a + b, key) =~= readings_of(a, key) + readings_of(b, key));
    }
}

/// No key has more readings than there are records.
pub proof fn lemma_readings_len(recs: Seq<Record>, key: Seq<u8>)
    ensures
        readings_of(recs, key).len() <= recs.len(),
    decreases recs.len(),
{
    if recs.len() > 0 {
        lemma_readings_len(recs.drop_last(), key);
    }
}

/// No records, no keys.
pub proof fn lemma_tally_of_empty()
    ensures
        tally_of(Seq::empty()) == Map::<Seq<u8>, Summary>::empty(),
{
    assert(tally_of(Seq::empty()) =~= Map::<Seq<u8>, Summary>::empty());
}

/// The tally after one more record is the tally with that record folded in.
pub proof fn lemma_tally_of_push(recs: Seq<Record>, r: Record)
    ensures
        tally_of(recs.push(r)) == fold_in(tally_of(recs), r.key, r.value),
{
    let t = tally_of(recs.push(r));
    let u = fold_in(tally_of(recs), r.key, r.value);
    assert forall|key: Seq<u8>|
        #![trigger t.dom().contains(key)]
        #![trigger u.dom().contains(key)]
        t.dom().contains(key) == u.dom().contains(key) && (t.dom().contains(key) ==> t[key]
            == u[key]) by {
        lemma_readings_push(recs, r, key);
        if r.key == key {
            let vals = readings_of(recs, key);
            if vals.len() > 0 {
                lemma_summary_of_push(vals, r.value);
            } else {
                assert(vals.push(r.value) =~= seq![r.value]);
                lemma_summary_of_one(r.value);
            }
        }
    }
    assert(t =~= u);
}

/// The tally of two runs of records, one behind the other, is the two
/// tallies taken together.
pub proof fn lemma_tally_of_concat(a: Seq<Record>, b: Seq<Record>)
    ensures
        tally_of(a + b) == merge_tallies(tally_of(a), tally_of(b)),
{
    let t = tally_of(a + b);
    let u = merge_tallies(tally_of(a), tally_of(b));
    assert forall|key: Seq<u8>|
        #![trigger t.dom().contains(key)]
        #![trigger u.dom().contains(key)]
        t.dom().contains(key) == u.dom().contains(key) && (t.dom().contains(key) ==> t[key]
            == u[key]) by {
        lemma_readings_concat(a, b, key);
        let x = readings_of(a, key);
        let y = readings_of(b, key);
        if x.len() > 0 && y.len() > 0 {
            lemma_summary_of_concat(x, y);
        } else if x.len() > 0 {
            assert(x + y =~= x);
        } else {
            assert(x + y =~= y);
        }
    }
    assert(t =~= u);
}

/// Every summary in the tally of some records is well formed and counts no
/// more readings than there are records.
pub proof fn lemma_tally_of_wf(recs: Seq<Record>)
    ensures
        tally_wf(tally_of(recs)),
        forall|key: Seq<u8>| #[trigger]
            tally_of(recs).contains_key(key) ==> tally_of(recs)[key].count <= recs.len(),
{
    assert forall|key: Seq<u8>| #[trigger] tally_of(recs).contains_key(key) implies tally_of(
        recs,
    )[key].wf() && tally_of(recs)[key].count <= recs.len() by {
        lemma_summary_of_wf(readings_of(recs, key));
        lemma_readings_len(recs, key);
    }
}

/// Taking tallies together does not depend on the order of the two.
pub proof fn lemma_merge_commutative(a: Tally, b: Tally)
    ensures
        merge_tallies(a, b) == merge_tallies(b, a),
{
    assert(merge_tallies(a, b) =~= merge_tallies(b, a));
}

/// Taking tallies together does not depend on how they are grouped.
pub proof fn lemma_merge_associative(a: Tally, b: Tally, c: Tally)
    ensures
        merge_tallies(merge_tallies(a, b), c) == merge_tallies(a, merge_tallies(b, c)),
{
    assert(merge_tallies(merge_tallies(a, b), c) =~= merge_tallies(a, merge_tallies(b, c)));
}

/// The empty tally changes nothing.
pub proof fn lemma_merge_empty(a: Tally)
    ensures
        merge_tallies(Map::empty(), a) == a,
        merge_tallies(a, Map::empty()) == a,
{
    assert(merge_tallies(Map::empty(), a) =~= a);
    assert(merge_tallies(a, Map::empty()) =~= a);
}

/// Folding a reading in is taking the tally together with the tally of that
/// one reading.
pub proof fn lemma_fold_in_is_merge(t: Tally, key: Seq<u8>, value: int)
    ensures
        fold_in(t, key, value) == merge_tallies(
            t,
            Map::<Seq<u8>, Summary>::empty().insert(key, Summary::single(value)),
        ),
{
    assert(fold_in(t, key, value) =~= merge_tallies(
        t,
        Map::<Seq<u8>, Summary>::empty().insert(key, Summary::single(value)),
    ));
}

/// Folding in and taking together keep a tally well formed.
pub proof fn lemma_merge_wf(a: Tally, b: Tally)
    requires
        tally_wf(a),
        tally_wf(b),
    ensures
        tally_wf(merge_tallies(a, b)),
{
    assert forall|key: Seq<u8>| #[trigger]
        merge_tallies(a, b).contains_key(key) implies merge_tallies(a, b)[key].wf() by {
        if a.contains_key(key) && b.contains_key(key) {
            Summary::lemma_combine_wf(a[key], b[key]);
        }
    }
}

/// All tallies taken together, with one more at the end.
pub proof fn lemma_merge_all_push(parts: Seq<Tally>, t: Tally)
    ensures
        merge_all(parts.push(t)) == merge_tallies(merge_all(parts), t),
{
    assert(parts.push(t).drop_last() =~= parts);
}

/// Taking a sequence of tallies together gives the same tally in whatever
/// order the sequence lists them.
pub proof fn lemma_merge_all_permutation(p: Seq<Tally>, q: Seq<Tally>)
    requires
        p.to_multiset() == q.to_multiset(),
    ensures
        merge_all(p) == merge_all(q),
{
    let f = merge_step();
    assert forall|x: Tally, y: Tally, v: Tally| #[trigger] f(f(v, x), y) == f(f(v, y), x) by {
        lemma_merge_associative(v, x, y);
        lemma_merge_commutative(x, y);
        lemma_merge_associative(v, y, x);
    }
    vstd::seq_lib::lemma_fold_left_permutation::<Tally, Tally>(p, q, f, Map::empty());
}

/// The tallies of the parts of a sequence of records, taken together, are
/// the tally of the whole sequence.
pub proof fn lemma_merge_all_of_parts(parts: Seq<Seq<Record>>)
    ensures
        merge_all(parts.map_values(|r: Seq<Record>| tally_of(r))) == tally_of(parts.flatten()),
    decreases parts.len(),
{
    let tallies = parts.map_values(|r: Seq<Record>| tally_of(r));
    if parts.len() == 0 {
        lemma_tally_of_empty();
        assert(parts.flatten() =~= Seq::<Record>::empty());
    } else {
        let head = parts.drop_last();
        let last = parts.last();
        lemma_merge_all_of_parts(head);
        assert(tallies.drop_last() =~= head.map_values(|r: Seq<Record>| tally_of(r)));
        assert(parts =~= head.push(last));
        assert(parts.flatten() =~= head.flatten() + last) by {
            head.lemma_flatten_push(last);
        }
        lemma_tally_of_concat(head.flatten(), last);
    }
}

} // verus!
