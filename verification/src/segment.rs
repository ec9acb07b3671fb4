//! Cutting a buffer into line-aligned byte ranges.

use crate::records::find_newline;
use crate::records::is_line_start;
use crate::records::lemma_find_byte;
use crate::records::lemma_next_start;
use crate::records::line_end;
use crate::records::next_start;
use crate::records::NEWLINE;
use vstd::prelude::*;

verus! {

/// The line boundary that a position is moved to: the start and the end
/// stay, any other position moves behind the next line terminator, or to the
/// end where none follows.
pub open spec fn line_boundary(data: Seq<u8>, pos: int) -> int {
    if pos <= 0 {
        0
    } else if pos >= data.len() {
        data.len() as int
    } else {
        next_start(data, pos)
    }
}

/// The `i`-th of the `workers + 1` cut points: the evenly spaced position
/// `i * len / workers`, moved to a line boundary.
pub open spec fn cut_point(data: Seq<u8>, workers: int, i: int) -> int {
    if i >= workers {
        data.len() as int
    } else {
        line_boundary(data, i * data.len() / workers)
    }
}

/// The ranges that a buffer is cut into: none for an empty buffer, else one
/// per worker, from each cut point to the next.
pub open spec fn segments(data: Seq<u8>, workers: int) -> Seq<(int, int)> {
    if data.len() == 0 {
        Seq::empty()
    } else {
        Seq::new(workers as nat, |i: int| (cut_point(data, workers, i), cut_point(data, workers, i + 1)))
    }
}

/// Ranges of machine integers as ranges of integers.
pub open spec fn range_view(ranges: Seq<(usize, usize)>) -> Seq<(int, int)> {
    Seq::new(ranges.len(), |i: int| (ranges[i].0 as int, ranges[i].1 as int))
}

/// The bytes of the first `n` ranges, one range behind the other.
pub open spec fn joined(data: Seq<u8>, ranges: Seq<(int, int)>, n: int) -> Seq<u8>
    decreases n,
{
    if n <= 0 {
        Seq::empty()
    } else {
        joined(data, ranges, n - 1) + data.subrange(ranges[n - 1].0, ranges[n - 1].1)
    }
}

/// A boundary lies within the buffer, at a line start, and not before the
/// position it was moved from.
pub proof fn lemma_line_boundary(data: Seq<u8>, pos: int)
    ensures
        is_line_start(data, line_boundary(data, pos)),
        0 <= pos <= data.len() ==> pos <= line_boundary(data, pos),
{
    if 0 < pos < data.len() {
        lemma_next_start(data, pos);
    }
}

/// A later position is moved to a later boundary, or to the same one.
pub proof fn lemma_line_boundary_monotonic(data: Seq<u8>, p: int, q: int)
    requires
        p <= q,
    ensures
        line_boundary(data, p) <= line_boundary(data, q),
{
    lemma_line_boundary(data, p);
    lemma_line_boundary(data, q);
    if 0 < p && q < data.len() {
        lemma_find_byte(data, NEWLINE, p);
        lemma_find_byte(data, NEWLINE, q);
        let e = line_end(data, p);
        let f = line_end(data, q);
        if f < e {
            assert(data[f] != NEWLINE);
        }
    }
}

/// The cut points start at zero, end at the length, never go back, and each
/// is a line start.
pub proof fn lemma_cut_points(data: Seq<u8>, workers: int, i: int)
    requires
        workers >= 1,
        0 <= i < workers,
    ensures
        cut_point(data, workers, 0) == 0,
        cut_point(data, workers, workers) == data.len(),
        0 <= cut_point(data, workers, i) <= cut_point(data, workers, i + 1) <= data.len(),
        is_line_start(data, cut_point(data, workers, i)),
        is_line_start(data, cut_point(data, workers, i + 1)),
{
    let len = data.len() as int;
    let p = i * len / workers;
    let q = (i + 1) * len / workers;
    assert(0 * len / workers == 0) by (nonlinear_arith)
        requires
            workers >= 1,
    ;
    assert(0 <= p <= q <= len) by (nonlinear_arith)
        requires
            workers >= 1,
            0 <= i < workers,
            len >= 0,
            p == i * len / workers,
            q == (i + 1) * len / workers,
    ;
    lemma_line_boundary(data, p);
    lemma_line_boundary(data, q);
    lemma_line_boundary_monotonic(data, p, q);
}

/// The first `n` ranges, one behind the other, are the buffer up to the
/// `n`-th cut point: no byte is left out and none comes twice.
pub proof fn lemma_joined_prefix(data: Seq<u8>, workers: int, n: int)
    requires
        workers >= 1,
        data.len() > 0,
        0 <= n <= workers,
    ensures
        joined(data, segments(data, workers), n) == data.subrange(0, cut_point(data, workers, n)),
    decreases n,
{
    let ranges = segments(data, workers);
    if n == 0 {
        lemma_cut_points(data, workers, 0);
        assert(joined(data, ranges, n) =~= data.subrange(0, 0));
    } else {
        lemma_joined_prefix(data, workers, n - 1);
        lemma_cut_points(data, workers, n - 1);
        assert(ranges[n - 1] == (cut_point(data, workers, n - 1), cut_point(data, workers, n)));
        assert(joined(data, ranges, n) =~= data.subrange(0, cut_point(data, workers, n)));
    }
}

/// The ranges of a buffer, one behind the other, are the buffer.
pub proof fn lemma_segments_cover(data: Seq<u8>, workers: int)
    requires
        workers >= 1,
    ensures
        joined(data, segments(data, workers), segments(data, workers).len() as int) == data,
{
    if data.len() == 0 {
        assert(joined(data, segments(data, workers), 0) =~= data);
    } else {
        lemma_joined_prefix(data, workers, workers);
        lemma_cut_points(data, workers, 0);
        assert(data.subrange(0, data.len() as int) =~= data);
    }
}

/// Moves `pos` to a line boundary: zero and positions at or behind the end
/// stay within the buffer, any other position moves behind the next line
/// terminator.
pub fn find_line_boundary(data: &[u8], pos: usize) -> (at: usize)
    ensures
        at == line_boundary(data@, pos as int),
        is_line_start(data@, at as int),
{
    proof {
        lemma_line_boundary(data@, pos as int);
    }
    if pos == 0 || pos >= data.len() {
        return if pos < data.len() {
            pos
        } else {
            data.len()
        };
    }
    let p: usize = find_newline(data, pos);
    if p < data.len() {
        p + 1
    } else {
        data.len()
    }
}

/// The evenly spaced position `i * len / workers`.
fn even_position(len: usize, workers: usize, i: usize) -> (pos: usize)
    requires
        workers >= 1,
        i <= workers,
    ensures
        pos == i * len / (workers as int),
        pos <= len,
{
    assert(i * len <= workers * len && i * len / (workers as int) <= len) by (nonlinear_arith)
        requires
            workers >= 1,
            0 <= i <= workers,
            len >= 0,
    ;
    assert(0 <= i * len <= 0xffff_ffff_ffff_ffff * 0xffff_ffff_ffff_ffff) by (nonlinear_arith)
        requires
            0 <= i <= 0xffff_ffff_ffff_ffff,
            0 <= len <= 0xffff_ffff_ffff_ffff,
    ;
    let wide: u128 = (i as u128) * (len as u128);
    (wide / (workers as u128)) as usize
}

/// Cuts a buffer into one range per worker, each from a line boundary to the
/// next; an empty buffer gives no range.
pub fn segment(data: &[u8], workers: usize) -> (ranges: Vec<(usize, usize)>)
    requires
        workers >= 1,
    ensures
        range_view(ranges@) == segments(data@, workers as int),
        joined(data@, range_view(ranges@), ranges@.len() as int) == data@,
{
    let len: usize = data.len();
    let mut ranges: Vec<(usize, usize)> = Vec::new();
    proof {
        lemma_segments_cover(data@, workers as int);
    }
    if len == 0 {
        assert(range_view(ranges@) =~= segments(data@, workers as int));
        return ranges;
    }
    let mut start: usize = 0;
    let mut i: usize = 0;
    proof {
        lemma_cut_points(data@, workers as int, 0);
    }
    while i < workers
        invariant
            len == data.len(),
            len > 0,
            workers >= 1,
            0 <= i <= workers,
            ranges@.len() == i,
            start == cut_point(data@, workers as int, i as int),
            forall|k: int|
                0 <= k < i ==> (#[trigger] ranges@[k]).0 == cut_point(data@, workers as int, k)
                    && ranges@[k].1 == cut_point(data@, workers as int, k + 1),
        decreases workers - i,
    {
        let end: usize = if i + 1 == workers {
            len
        } else {
            find_line_boundary(data, even_position(len, workers, i + 1))
        };
        ranges.push((start, end));
        start = end;
        i += 1;
    }
    assert(range_view(ranges@) =~= segments(data@, workers as int));
    ranges
}

} // verus!
