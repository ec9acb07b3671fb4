//! The report: one entry per key, in the order of the keys.

use crate::aggregate::Tally;
use crate::numeral::push_reading;
use crate::numeral::reading_text;
use crate::order::is_sorted_order;
use crate::order::keys_in_order;
use crate::order::lemma_increasing_unique;
use crate::order::sorted_order;
use crate::order::strictly_increasing;
use crate::records::NEWLINE;
use crate::stats::Stats;
use crate::stats::Summary;
use crate::table::lists_entries;
use crate::table::StationTable;
use vstd::prelude::*;

verus! {

/// Stands between two entries.
pub const COMMA: u8 = 44;

/// Stands between the three readings of an entry.
pub const SLASH: u8 = 47;

/// Stands between a key and its readings.
pub const EQUALS: u8 = 61;

/// Opens the report.
pub const OPEN_BRACE: u8 = 123;

/// Closes the report.
pub const CLOSE_BRACE: u8 = 125;

/// One entry of the report: the key, an equals sign, and the smallest
/// reading, the mean and the largest reading with slashes between them.
pub open spec fn entry_text(key: Seq<u8>, s: Summary) -> Seq<u8> {
    key + seq![EQUALS] + reading_text(s.min) + seq![SLASH] + reading_text(s.mean()) + seq![SLASH]
        + reading_text(s.max)
}

/// The entries of the given keys, with commas between them.
pub open spec fn entries_text(keys: Seq<Seq<u8>>, t: Tally) -> Seq<u8>
    decreases keys.len(),
{
    if keys.len() == 0 {
        Seq::empty()
    } else if keys.len() == 1 {
        entry_text(keys[0], t[keys[0]])
    } else {
        entries_text(keys.drop_last(), t) + seq![COMMA] + entry_text(keys.last(), t[keys.last()])
    }
}

/// `keys` lists the keys of `t` in increasing order.
pub open spec fn is_key_list(keys: Seq<Seq<u8>>, t: Tally) -> bool {
    &&& strictly_increasing(keys)
    &&& forall|k: Seq<u8>| keys.contains(k) <==> t.contains_key(k)
}

/// The keys of a tally in increasing order.
pub open spec fn sorted_keys(t: Tally) -> Seq<Seq<u8>> {
    choose|keys: Seq<Seq<u8>>| is_key_list(keys, t)
}

/// The report of a tally: the entries of its keys in increasing order,
/// within braces, and a line terminator.
pub open spec fn report_text(t: Tally) -> Seq<u8> {
    seq![OPEN_BRACE] + entries_text(sorted_keys(t), t) + seq![CLOSE_BRACE, NEWLINE]
}

/// There is one list of the keys of a tally in increasing order.
pub proof fn lemma_sorted_keys(keys: Seq<Seq<u8>>, t: Tally)
    requires
        is_key_list(keys, t),
    ensures
        sorted_keys(t) == keys,
{
    lemma_increasing_unique(sorted_keys(t), keys);
}

/// The report of the empty tally.
pub proof fn lemma_report_of_empty()
    ensures
        report_text(Map::empty()) == seq![OPEN_BRACE, CLOSE_BRACE, NEWLINE],
{
    let t: Tally = Map::empty();
    let none: Seq<Seq<u8>> = Seq::empty();
    assert(is_key_list(none, t));
    lemma_sorted_keys(none, t);
    assert(report_text(t) =~= seq![OPEN_BRACE, CLOSE_BRACE, NEWLINE]);
}

/// The entries of one more key.
pub proof fn lemma_entries_text_push(keys: Seq<Seq<u8>>, t: Tally, key: Seq<u8>)
    ensures
        entries_text(keys.push(key), t) == if keys.len() == 0 {
            entry_text(key, t[key])
        } else {
            entries_text(keys, t) + seq![COMMA] + entry_text(key, t[key])
        },
{
    assert(keys.push(key).drop_last() =~= keys);
}

/// Appends one entry of the report.
fn push_entry(out: &mut Vec<u8>, key: &[u8], stats: &Stats)
    requires
        stats.wf(),
    ensures
        final(out)@ == old(out)@ + entry_text(key@, stats@),
{
    out.extend_from_slice(key);
    out.push(EQUALS);
    push_reading(out, stats.min);
    out.push(SLASH);
    push_reading(out, stats.mean());
    out.push(SLASH);
    push_reading(out, stats.max);
    proof {
        assert(out@ =~= old(out)@ + entry_text(key@, stats@));
    }
}

/// The report of a mapping.
pub fn format_report(table: StationTable) -> (out: Vec<u8>)
    requires
        table.wf(),
    ensures
        out@ == report_text(table@),
{
    proof {
        table.lemma_view();
    }
    let ghost t = table@;
    let ghost stored = table.stored();
    let entries: Vec<(Vec<u8>, Stats)> = table.into_entries();
    let order: Vec<usize> = sorted_order(&entries);
    let ghost keys = keys_in_order(entries@, order@);
    proof {
        assert forall|k: Seq<u8>| keys.contains(k) <==> t.contains_key(k) by {
            if keys.contains(k) {
                let i = choose|i: int| 0 <= i < keys.len() && keys[i] == k;
                assert(order@[i] < entries@.len());
                assert(stored.contains_key(entries@[order@[i] as int].0@));
            }
            if t.contains_key(k) {
                assert(stored.contains_key(k));
                let x = choose|x: int| 0 <= x < entries@.len() && #[trigger] entries@[x].0@ == k;
                assert(order@.contains(x as usize));
                let i = choose|i: int| 0 <= i < order@.len() && order@[i] == x as usize;
                assert(keys[i] == k);
            }
        }
        assert(strictly_increasing(keys));
        lemma_sorted_keys(keys, t);
    }
    let mut out: Vec<u8> = Vec::new();
    out.push(OPEN_BRACE);
    let mut i: usize = 0;
    while i < order.len()
        invariant
            0 <= i <= order@.len(),
            keys == keys_in_order(entries@, order@),
            is_sorted_order(entries@, order@),
            lists_entries(entries@, stored),
            t.dom() == stored.dom(),
            forall|key: Seq<u8>| #[trigger] stored.contains_key(key) ==> t[key] == stored[key]@,
            crate::aggregate::tally_wf(t),
            out@ == seq![OPEN_BRACE] + entries_text(keys.take(i as int), t),
        decreases order@.len() - i,
    {
        if i > 0 {
            out.push(COMMA);
        }
        let index: usize = order[i];
        let entry: &(Vec<u8>, Stats) = &entries[index];
        proof {
            let key = entry.0@;
            assert(keys[i as int] == key);
            assert(stored.contains_key(entries@[index as int].0@));
            assert(t.contains_key(key));
            assert(t[key] == entry.1@);
            assert(keys.take(i + 1) =~= keys.take(i as int).push(key));
            lemma_entries_text_push(keys.take(i as int), t, key);
        }
        push_entry(&mut out, entry.0.as_slice(), &entry.1);
        proof {
            assert(out@ =~= seq![OPEN_BRACE] + entries_text(keys.take(i + 1), t));
        }
        i += 1;
    }
    out.push(CLOSE_BRACE);
    out.push(NEWLINE);
    proof {
        assert(keys.take(i as int) =~= keys);
        assert(out@ =~= report_text(t));
    }
    out
}

} // verus!
