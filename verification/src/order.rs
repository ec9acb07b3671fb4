//! The order of keys: byte sequences compared byte by byte, a proper prefix
//! before what it is a prefix of.

use crate::stats::Stats;
use vstd::prelude::*;

verus! {

/// `a` comes before `b`, both looked at from place `i` on.
pub open spec fn less_from(a: Seq<u8>, b: Seq<u8>, i: int) -> bool
    decreases a.len() - i,
{
    if i < 0 || i >= b.len() {
        false
    } else if i >= a.len() {
        true
    } else if a[i] != b[i] {
        a[i] < b[i]
    } else {
        less_from(a, b, i + 1)
    }
}

/// `a` comes before `b`: at the first place where they differ `a` has the
/// smaller byte, or `a` ends there and `b` goes on.
pub open spec fn lex_less(a: Seq<u8>, b: Seq<u8>) -> bool {
    less_from(a, b, 0)
}

/// Each key comes before every later one.
pub open spec fn strictly_increasing(keys: Seq<Seq<u8>>) -> bool {
    forall|i: int, j: int| 0 <= i < j < keys.len() ==> lex_less(#[trigger] keys[i], #[trigger] keys[j])
}

/// Nothing comes before itself.
pub proof fn lemma_less_irreflexive(a: Seq<u8>, i: int)
    ensures
        !less_from(a, a, i),
    decreases a.len() - i,
{
    if 0 <= i < a.len() {
        lemma_less_irreflexive(a, i + 1);
    }
}

/// What comes before something that comes before a third comes before the
/// third.
pub proof fn lemma_less_transitive(a: Seq<u8>, b: Seq<u8>, c: Seq<u8>, i: int)
    requires
        less_from(a, b, i),
        less_from(b, c, i),
    ensures
        less_from(a, c, i),
    decreases a.len() - i,
{
    if i < a.len() && a[i] == b[i] && b[i] == c[i] {
        lemma_less_transitive(a, b, c, i + 1);
    }
}

/// Two sequences of which neither comes before the other agree from `i` on.
pub proof fn lemma_less_total(a: Seq<u8>, b: Seq<u8>, i: int)
    requires
        0 <= i,
        !less_from(a, b, i),
        !less_from(b, a, i),
    ensures
        i <= a.len() && i <= b.len() ==> a.len() == b.len(),
        forall|j: int| i <= j < a.len() ==> a[j] == b[j],
    decreases a.len() - i,
{
    if i < a.len() && i < b.len() {
        lemma_less_total(a, b, i + 1);
    }
}

/// Of two different keys one comes before the other.
pub proof fn lemma_lex_trichotomy(a: Seq<u8>, b: Seq<u8>)
    ensures
        a == b || lex_less(a, b) || lex_less(b, a),
        !(lex_less(a, b) && lex_less(b, a)),
        !lex_less(a, a),
{
    lemma_less_irreflexive(a, 0);
    if !lex_less(a, b) && !lex_less(b, a) {
        lemma_less_total(a, b, 0);
        assert(a =~= b);
    }
    if lex_less(a, b) && lex_less(b, a) {
        lemma_less_transitive(a, b, a, 0);
    }
}

/// Two strictly increasing sequences with the same members are the same
/// sequence.
pub proof fn lemma_increasing_unique(x: Seq<Seq<u8>>, y: Seq<Seq<u8>>)
    requires
        strictly_increasing(x),
        strictly_increasing(y),
        forall|k: Seq<u8>| x.contains(k) <==> y.contains(k),
    ensures
        x == y,
    decreases x.len(),
{
    if x.len() == 0 {
        if y.len() > 0 {
            assert(y.contains(y[0]));
        }
        assert(x =~= y);
    } else {
        let top = x.last();
        assert(x.contains(top));
        assert(y.contains(top));
        assert(y.len() > 0);
        let other = y.last();
        assert(y.contains(other));
        assert(x.contains(other));
        let i = choose|i: int| 0 <= i < y.len() && y[i] == top;
        let j = choose|j: int| 0 <= j < x.len() && x[j] == other;
        lemma_lex_trichotomy(top, other);
        assert(top == other) by {
            if i < y.len() - 1 && j < x.len() - 1 {
                assert(lex_less(y[i], y[y.len() - 1]));
                assert(lex_less(x[j], x[x.len() - 1]));
            } else if i < y.len() - 1 {
                assert(lex_less(y[i], y[y.len() - 1]));
            } else if j < x.len() - 1 {
                assert(lex_less(x[j], x[x.len() - 1]));
            }
        }
        let xs = x.drop_last();
        let ys = y.drop_last();
        assert forall|k: Seq<u8>| xs.contains(k) <==> ys.contains(k) by {
            lemma_less_irreflexive(top, 0);
            if xs.contains(k) {
                let a = choose|a: int| 0 <= a < xs.len() && xs[a] == k;
                assert(x[a] == k);
                assert(lex_less(x[a], x[x.len() - 1]));
                assert(x.contains(k));
                let b = choose|b: int| 0 <= b < y.len() && y[b] == k;
                assert(b < y.len() - 1);
                assert(ys[b] == k);
            }
            if ys.contains(k) {
                let b = choose|b: int| 0 <= b < ys.len() && ys[b] == k;
                assert(y[b] == k);
                assert(lex_less(y[b], y[y.len() - 1]));
                assert(y.contains(k));
                let a = choose|a: int| 0 <= a < x.len() && x[a] == k;
                assert(a < x.len() - 1);
                assert(xs[a] == k);
            }
        }
        assert(strictly_increasing(xs)) by {
            assert forall|a: int, b: int| 0 <= a < b < xs.len() implies lex_less(
                #[trigger] xs[a],
                #[trigger] xs[b],
            ) by {
                assert(lex_less(x[a], x[b]));
            }
        }
        assert(strictly_increasing(ys)) by {
            assert forall|a: int, b: int| 0 <= a < b < ys.len() implies lex_less(
                #[trigger] ys[a],
                #[trigger] ys[b],
            ) by {
                assert(lex_less(y[a], y[b]));
            }
        }
        lemma_increasing_unique(xs, ys);
        assert(x =~= xs.push(top));
        assert(y =~= ys.push(other));
    }
}

/// Tells whether `a` comes before `b`.
pub fn key_less(a: &[u8], b: &[u8]) -> (less: bool)
    ensures
        less == lex_less(a@, b@),
{
    let mut i: usize = 0;
    while i < a.len() && i < b.len()
        invariant
            0 <= i <= a.len(),
            i <= b.len(),
            lex_less(a@, b@) == less_from(a@, b@, i as int),
        decreases a.len() - i,
    {
        if a[i] != b[i] {
            return a[i] < b[i];
        }
        i += 1;
    }
    i < b.len()
}

/// The key of the entry that `index` names.
pub open spec fn key_at(entries: Seq<(Vec<u8>, Stats)>, index: usize) -> Seq<u8> {
    entries[index as int].0@
}

/// The keys of the entries that `order` names, in that order.
pub open spec fn keys_in_order(entries: Seq<(Vec<u8>, Stats)>, order: Seq<usize>) -> Seq<Seq<u8>> {
    Seq::new(order.len(), |i: int| key_at(entries, order[i]))
}

/// `order` names entries, and their keys are strictly increasing.
pub open spec fn is_sorted_order(entries: Seq<(Vec<u8>, Stats)>, order: Seq<usize>) -> bool {
    &&& forall|i: int| 0 <= i < order.len() ==> #[trigger] order[i] < entries.len()
    &&& forall|i: int, j: int|
        0 <= i < j < order.len() ==> lex_less(
            key_at(entries, #[trigger] order[i]),
            key_at(entries, #[trigger] order[j]),
        )
}

/// No two entries have the same key.
pub open spec fn distinct_keys(entries: Seq<(Vec<u8>, Stats)>) -> bool {
    forall|i: int, j: int|
        0 <= i < j < entries.len() ==> #[trigger] entries[i].0@ != #[trigger] entries[j].0@
}

/// What a sequence holds after one more member.
pub proof fn lemma_push_contains(s: Seq<usize>, x: usize, y: usize)
    ensures
        s.push(x).contains(y) <==> s.contains(y) || y == x,
{
    if s.contains(y) {
        let i = choose|i: int| 0 <= i < s.len() && s[i] == y;
        assert(s.push(x)[i] == y);
    }
    if y == x {
        assert(s.push(x)[s.len() as int] == x);
    }
    if s.push(x).contains(y) {
        let i = choose|i: int| 0 <= i < s.push(x).len() && s.push(x)[i] == y;
        if i < s.len() {
            assert(s[i] == y);
        }
    }
}

/// Merges two sorted runs of entry indices into one.
fn merge_runs(entries: &Vec<(Vec<u8>, Stats)>, left: &Vec<usize>, right: &Vec<usize>) -> (out: Vec<
    usize,
>)
    requires
        is_sorted_order(entries@, left@),
        is_sorted_order(entries@, right@),
        forall|i: int, j: int|
            0 <= i < left@.len() && 0 <= j < right@.len() ==> key_at(entries@, #[trigger] left@[i])
                != key_at(entries@, #[trigger] right@[j]),
    ensures
        is_sorted_order(entries@, out@),
        out@.len() == left@.len() + right@.len(),
        forall|x: usize| out@.contains(x) <==> left@.contains(x) || right@.contains(x),
{
    let mut out: Vec<usize> = Vec::new();
    let mut a: usize = 0;
    let mut b: usize = 0;
    while a < left.len() || b < right.len()
        invariant
            0 <= a <= left@.len(),
            0 <= b <= right@.len(),
            out@.len() == a + b,
            is_sorted_order(entries@, left@),
            is_sorted_order(entries@, right@),
            forall|i: int, j: int|
                0 <= i < left@.len() && 0 <= j < right@.len() ==> key_at(
                    entries@,
                    #[trigger] left@[i],
                ) != key_at(entries@, #[trigger] right@[j]),
            is_sorted_order(entries@, out@),
            forall|k: int|
                0 <= k < out@.len() && a < left@.len() ==> lex_less(
                    key_at(entries@, #[trigger] out@[k]),
                    key_at(entries@, left@[a as int]),
                ),
            forall|k: int|
                0 <= k < out@.len() && b < right@.len() ==> lex_less(
                    key_at(entries@, #[trigger] out@[k]),
                    key_at(entries@, right@[b as int]),
                ),
            forall|x: usize|
                out@.contains(x) <==> left@.subrange(0, a as int).contains(x) || right@.subrange(
                    0,
                    b as int,
                ).contains(x),
        decreases left@.len() - a + right@.len() - b,
    {
        let take_left: bool = if a >= left.len() {
            false
        } else if b >= right.len() {
            true
        } else {
            !key_less(entries[right[b]].0.as_slice(), entries[left[a]].0.as_slice())
        };
        let ghost before = out@;
        if take_left {
            let x: usize = left[a];
            proof {
                if b < right@.len() {
                    lemma_lex_trichotomy(key_at(entries@, x), key_at(entries@, right@[b as int]));
                }
                assert forall|k: int| 0 <= k < before.len() + 1 && a + 1 < left@.len() implies lex_less(
                    key_at(entries@, #[trigger] before.push(x)[k]),
                    key_at(entries@, left@[a + 1]),
                ) by {
                    assert(lex_less(key_at(entries@, left@[a as int]), key_at(entries@, left@[a + 1])));
                    if k < before.len() {
                        lemma_less_transitive(
                            key_at(entries@, before[k]),
                            key_at(entries@, x),
                            key_at(entries@, left@[a + 1]),
                            0,
                        );
                    }
                }
                assert forall|k: int| 0 <= k < before.len() + 1 && b < right@.len() implies lex_less(
                    key_at(entries@, #[trigger] before.push(x)[k]),
                    key_at(entries@, right@[b as int]),
                ) by {}
            }
            out.push(x);
            a += 1;
            proof {
                assert forall|y: usize|
                    out@.contains(y) <==> left@.subrange(0, a as int).contains(y) || right@.subrange(
                        0,
                        b as int,
                    ).contains(y) by {
                    lemma_push_contains(before, x, y);
                    lemma_push_contains(left@.subrange(0, a - 1), x, y);
                    assert(left@.subrange(0, a as int) =~= left@.subrange(0, a - 1).push(x));
                }
            }
        } else {
            let x: usize = right[b];
            proof {
                assert forall|k: int| 0 <= k < before.len() + 1 && b + 1 < right@.len() implies lex_less(
                    key_at(entries@, #[trigger] before.push(x)[k]),
                    key_at(entries@, right@[b + 1]),
                ) by {
                    assert(lex_less(
                        key_at(entries@, right@[b as int]),
                        key_at(entries@, right@[b + 1]),
                    ));
                    if k < before.len() {
                        lemma_less_transitive(
                            key_at(entries@, before[k]),
                            key_at(entries@, x),
                            key_at(entries@, right@[b + 1]),
                            0,
                        );
                    }
                }
                assert forall|k: int| 0 <= k < before.len() + 1 && a < left@.len() implies lex_less(
                    key_at(entries@, #[trigger] before.push(x)[k]),
                    key_at(entries@, left@[a as int]),
                ) by {}
            }
            out.push(x);
            b += 1;
            proof {
                assert forall|y: usize|
                    out@.contains(y) <==> left@.subrange(0, a as int).contains(y) || right@.subrange(
                        0,
                        b as int,
                    ).contains(y) by {
                    lemma_push_contains(before, x, y);
                    lemma_push_contains(right@.subrange(0, b - 1), x, y);
                    assert(right@.subrange(0, b as int) =~= right@.subrange(0, b - 1).push(x));
                }
            }
        }
    }
    proof {
        assert(left@.subrange(0, a as int) =~= left@);
        assert(right@.subrange(0, b as int) =~= right@);
    }
    out
}

/// The indices from `lo` up to `hi`, ordered by the keys of their entries.
fn sort_range(entries: &Vec<(Vec<u8>, Stats)>, lo: usize, hi: usize) -> (order: Vec<usize>)
    requires
        lo <= hi <= entries@.len(),
        distinct_keys(entries@),
    ensures
        is_sorted_order(entries@, order@),
        order@.len() == hi - lo,
        forall|x: usize| order@.contains(x) <==> lo <= x < hi,
    decreases hi - lo,
{
    if hi - lo <= 1 {
        let mut order: Vec<usize> = Vec::new();
        if hi - lo == 1 {
            order.push(lo);
        }
        proof {
            assert forall|x: usize| order@.contains(x) <==> lo <= x < hi by {
                if lo <= x < hi {
                    assert(order@[0] == x);
                }
            }
        }
        return order;
    }
    let mid: usize = lo + (hi - lo) / 2;
    let left: Vec<usize> = sort_range(entries, lo, mid);
    let right: Vec<usize> = sort_range(entries, mid, hi);
    proof {
        assert forall|i: int, j: int| 0 <= i < left@.len() && 0 <= j < right@.len() implies key_at(
            entries@,
            #[trigger] left@[i],
        ) != key_at(entries@, #[trigger] right@[j]) by {
            assert(left@.contains(left@[i]));
            assert(right@.contains(right@[j]));
        }
    }
    merge_runs(entries, &left, &right)
}

/// The indices of all entries, ordered by key.
pub fn sorted_order(entries: &Vec<(Vec<u8>, Stats)>) -> (order: Vec<usize>)
    requires
        distinct_keys(entries@),
    ensures
        is_sorted_order(entries@, order@),
        order@.len() == entries@.len(),
        forall|x: usize| order@.contains(x) <==> x < entries@.len(),
{
    sort_range(entries, 0, entries.len())
}

} // verus!
