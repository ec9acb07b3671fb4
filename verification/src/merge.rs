//! Combining the mappings of several workers into one.

use crate::aggregate::lemma_merge_all_push;
use crate::aggregate::lemma_merge_associative;
use crate::aggregate::lemma_merge_commutative;
use crate::aggregate::lemma_merge_empty;
use crate::aggregate::merge_all;
use crate::aggregate::merge_tallies;
use crate::aggregate::Tally;
use crate::records::InputError;
use crate::stats::Stats;
use crate::stats::Summary;
use crate::table::lists_entries;
use crate::table::StationTable;
use vstd::prelude::*;

verus! {

/// The tallies that a sequence of mappings holds.
pub open spec fn views(parts: Seq<StationTable>) -> Seq<Tally> {
    Seq::new(parts.len(), |i: int| parts[i]@)
}

/// Some entry from place `from` on has the key `key`.
pub open spec fn listed_from(entries: Seq<(Vec<u8>, Stats)>, from: int, key: Seq<u8>) -> bool {
    exists|i: int| from <= i < entries.len() && #[trigger] entries[i].0@ == key
}

/// The part of a tally whose keys are listed from place `from` on.
pub open spec fn listed_part(t: Tally, entries: Seq<(Vec<u8>, Stats)>, from: int) -> Tally {
    Map::new(|key: Seq<u8>| listed_from(entries, from, key), |key: Seq<u8>| t[key])
}

/// Two mappings can be combined when no key of both has more readings in
/// the two together than a counter can hold.
pub open spec fn can_merge(a: Tally, b: Tally) -> bool {
    forall|key: Seq<u8>|
        #![trigger a.contains_key(key)]
        #![trigger b.contains_key(key)]
        a.contains_key(key) && b.contains_key(key) ==> a[key].count + b[key].count <= u32::MAX
}

/// Folds the entries of `partial` into `target`, one by one: a key that
/// `target` holds has the two accumulators combined, a new key is inserted.
/// Stops and tells so when a counter would run over; `target` then holds
/// what was folded in before.
pub fn try_merge_into(target: &mut StationTable, partial: StationTable) -> (done: bool)
    requires
        old(target).wf(),
        partial.wf(),
    ensures
        done == can_merge(old(target)@, partial@),
        done ==> final(target)@ == merge_tallies(old(target)@, partial@),
        final(target).wf(),
{
    proof {
        partial.lemma_view();
    }
    let ghost stored = partial.stored();
    let ghost p = partial@;
    let ghost start = target@;
    let mut entries: Vec<(Vec<u8>, Stats)> = partial.into_entries();
    let ghost all = entries@;
    proof {
        assert(merge_tallies(start, listed_part(p, all, all.len() as int)) =~= start);
    }
    loop
        invariant_except_break
            entries@ == all.take(entries@.len() as int),
        invariant
            entries@.len() <= all.len(),
            start == old(target)@,
            p == partial@,
            lists_entries(all, stored),
            p.dom() == stored.dom(),
            forall|key: Seq<u8>| #[trigger] stored.contains_key(key) ==> p[key] == stored[key]@,
            crate::aggregate::tally_wf(p),
            forall|key: Seq<u8>|
                #![trigger start.contains_key(key)]
                listed_from(all, entries@.len() as int, key) && start.contains_key(key)
                    ==> start[key].count + p[key].count <= u32::MAX,
            target.wf(),
            target@ == merge_tallies(start, listed_part(p, all, entries@.len() as int)),
        ensures
            entries@.len() == 0,
        decreases entries@.len(),
    {
        let ghost n = entries@.len() as int;
        match entries.pop() {
            None => {
                break ;
            },
            Some(entry) => {
                let (key, stats) = entry;
                proof {
                    assert(entry == all[n - 1]);
                    assert(stored.contains_key(all[n - 1].0@));
                    assert(p.contains_key(key@));
                    assert(p[key@] == stats@);
                    assert(!listed_from(all, n, key@)) by {
                        if listed_from(all, n, key@) {
                            let i = choose|i: int| n <= i < all.len() && #[trigger] all[i].0@ == key@;
                            assert(all[n - 1].0@ != all[i].0@);
                        }
                    }
                    assert(entries@ =~= all.take(n - 1));
                }
                let room: bool = match target.get(key.as_slice()) {
                    Some(existing) => existing.count <= u32::MAX - stats.count,
                    None => true,
                };
                if !room {
                    proof {
                        assert(start.contains_key(key@));
                        assert(start[key@].count + p[key@].count > u32::MAX);
                    }
                    return false;
                }
                target.record_stats(key, stats);
                proof {
                    let one = Map::<Seq<u8>, Summary>::empty().insert(key@, stats@);
                    let wider = listed_part(p, all, n - 1);
                    let narrow = listed_part(p, all, n);
                    assert forall|k: Seq<u8>| listed_from(all, n - 1, k) <==> (listed_from(all, n, k)
                        || k == key@) by {
                        if listed_from(all, n - 1, k) {
                            let i = choose|i: int|
                                n - 1 <= i < all.len() && #[trigger] all[i].0@ == k;
                            if i >= n {
                                assert(listed_from(all, n, k));
                            }
                        }
                        if listed_from(all, n, k) {
                            let i = choose|i: int| n <= i < all.len() && #[trigger] all[i].0@ == k;
                            assert(n - 1 <= i < all.len() && all[i].0@ == k);
                        }
                        if k == key@ {
                            assert(n - 1 <= n - 1 < all.len() && all[n - 1].0@ == k);
                        }
                    }
                    assert(merge_tallies(merge_tallies(start, narrow), one) =~= merge_tallies(
                        start,
                        wider,
                    ));
                }
            },
        }
    }
    proof {
        let whole = listed_part(p, all, 0);
        assert forall|k: Seq<u8>| p.contains_key(k) <==> listed_from(all, 0, k) by {
            if p.contains_key(k) {
                assert(stored.contains_key(k));
                let i = choose|i: int| 0 <= i < all.len() && #[trigger] all[i].0@ == k;
                assert(listed_from(all, 0, k));
            }
            if listed_from(all, 0, k) {
                let i = choose|i: int| 0 <= i < all.len() && #[trigger] all[i].0@ == k;
                assert(stored.contains_key(all[i].0@));
            }
        }
        assert(whole =~= p);
    }
    true
}

/// Folds every entry of `partial` into `target`: a key that `target` holds
/// has the two accumulators combined, a new key is inserted.
pub fn merge_into(target: &mut StationTable, partial: StationTable)
    requires
        old(target).wf(),
        partial.wf(),
        can_merge(old(target)@, partial@),
    ensures
        final(target)@ == merge_tallies(old(target)@, partial@),
        final(target).wf(),
{
    let _ = try_merge_into(target, partial);
}

/// No key of the tally counts more readings than a counter can hold.
pub open spec fn counts_fit(t: Tally) -> bool {
    forall|key: Seq<u8>| #[trigger] t.contains_key(key) ==> t[key].count <= u32::MAX
}

/// Combines the mappings from the last to the first, as long as the
/// counters have room, and tells whether they all had.
fn merge_parts(tables: Vec<StationTable>) -> (out: (StationTable, bool))
    requires
        forall|i: int| 0 <= i < tables@.len() ==> (#[trigger] tables@[i]).wf(),
    ensures
        out.1 == counts_fit(merge_all(views(tables@))),
        out.1 ==> out.0@ == merge_all(views(tables@)),
        out.0.wf(),
{
    let mut parts = tables;
    let ghost all = views(parts@);
    let mut merged = StationTable::new();
    proof {
        assert(all.take(all.len() as int) =~= all);
        lemma_merge_empty(merge_all(all));
    }
    loop
        invariant
            parts@.len() <= all.len(),
            all == views(tables@),
            views(parts@) == all.take(parts@.len() as int),
            forall|i: int| 0 <= i < parts@.len() ==> (#[trigger] parts@[i]).wf(),
            merged.wf(),
            merge_tallies(merge_all(views(parts@)), merged@) == merge_all(all),
        ensures
            parts@.len() == 0,
        decreases parts@.len(),
    {
        let ghost n = parts@.len() as int;
        let ghost before = views(parts@);
        let ghost so_far = merged@;
        match parts.pop() {
            None => {
                break ;
            },
            Some(part) => {
                let ghost rest = views(parts@);
                let ghost f = merge_all(rest);
                let ghost m = merge_all(all);
                proof {
                    assert(before =~= rest.push(part@));
                    assert(rest =~= all.take(n - 1));
                    lemma_merge_all_push(rest, part@);
                    lemma_merge_associative(f, part@, so_far);
                    lemma_merge_commutative(part@, so_far);
                    assert(m == merge_tallies(f, merge_tallies(so_far, part@)));
                }
                let done: bool = try_merge_into(&mut merged, part);
                if !done {
                    proof {
                        let key = choose|key: Seq<u8>|
                            so_far.contains_key(key) && part@.contains_key(key) && so_far[key].count
                                + part@[key].count > u32::MAX;
                        assert(merge_tallies(so_far, part@).contains_key(key));
                        assert(m.contains_key(key));
                        assert(m[key].count > u32::MAX);
                    }
                    return (merged, false);
                }
            },
        }
    }
    proof {
        assert(views(parts@) =~= Seq::<Tally>::empty());
        lemma_merge_empty(merged@);
        merged.lemma_counts_fit();
    }
    (merged, true)
}

/// All mappings combined into one.
pub fn merge_all_tables(parts: Vec<StationTable>) -> (merged: StationTable)
    requires
        forall|i: int| 0 <= i < parts@.len() ==> (#[trigger] parts@[i]).wf(),
        counts_fit(merge_all(views(parts@))),
    ensures
        merged@ == merge_all(views(parts@)),
        merged.wf(),
{
    merge_parts(parts).0
}

/// All mappings combined into one, unless some key has more readings in all
/// of them together than a counter can hold.
pub fn try_merge_all(parts: Vec<StationTable>) -> (result: Result<StationTable, InputError>)
    requires
        forall|i: int| 0 <= i < parts@.len() ==> (#[trigger] parts@[i]).wf(),
    ensures
        match result {
            Ok(merged) => counts_fit(merge_all(views(parts@))) && merged@ == merge_all(
                views(parts@),
            ) && merged.wf(),
            Err(err) => err == InputError::TooManyRecords && !counts_fit(
                merge_all(views(parts@)),
            ),
        },
{
    let (merged, done) = merge_parts(parts);
    if done {
        Ok(merged)
    } else {
        Err(InputError::TooManyRecords)
    }
}

} // verus!
