//! The per-key accumulator and its mathematical model.

use vstd::prelude::*;

verus! {

/// What is known about a non-empty collection of readings: the smallest, the
/// largest, their total and how many there are.
pub struct Summary {
    pub min: int,
    pub max: int,
    pub sum: int,
    pub count: nat,
}

impl Summary {
    /// The summary of one reading.
    pub open spec fn single(value: int) -> Summary {
        Summary { min: value, max: value, sum: value, count: 1 }
    }

    /// The summary of two collections taken together.
    pub open spec fn combine(self, other: Summary) -> Summary {
        Summary {
            min: if other.min < self.min { other.min } else { self.min },
            max: if other.max > self.max { other.max } else { self.max },
            sum: self.sum + other.sum,
            count: self.count + other.count,
        }
    }

    /// The summary after one more reading.
    pub open spec fn push(self, value: int) -> Summary {
        self.combine(Summary::single(value))
    }

    /// The total lies between `count` times the smallest and `count` times
    /// the largest reading, and there is at least one reading.
    pub open spec fn wf(self) -> bool {
        &&& self.count >= 1
        &&& self.min <= self.max
        &&& self.count * self.min <= self.sum <= self.count * self.max
    }

    /// The mean of the readings in tenths, rounded to the nearest tenth,
    /// halves away from zero.
    pub open spec fn mean(self) -> int {
        rounded_mean(self.sum, self.count as int)
    }

    /// The mean of a well-formed summary lies between its extremes.
    pub proof fn lemma_mean_bounds(self)
        requires
            self.wf(),
        ensures
            self.min <= self.mean() <= self.max,
    {
        lemma_rounded_mean_bounds(self.sum, self.count as int, self.min, self.max);
    }

    /// Combining summaries does not depend on the order of the two.
    pub proof fn lemma_combine_commutative(a: Summary, b: Summary)
        ensures
            a.combine(b) == b.combine(a),
    {
    }

    /// Combining summaries does not depend on how they are grouped.
    pub proof fn lemma_combine_associative(a: Summary, b: Summary, c: Summary)
        ensures
            a.combine(b).combine(c) == a.combine(b.combine(c)),
    {
    }

    /// Combining keeps a summary well formed.
    pub proof fn lemma_combine_wf(a: Summary, b: Summary)
        requires
            a.wf(),
            b.wf(),
        ensures
            a.combine(b).wf(),
    {
        let c = a.combine(b);
        assert(c.count * c.min <= c.sum) by (nonlinear_arith)
            requires
                c.count == a.count + b.count,
                c.min <= a.min,
                c.min <= b.min,
                a.count * a.min <= a.sum,
                b.count * b.min <= b.sum,
                c.sum == a.sum + b.sum,
        ;
        assert(c.sum <= c.count * c.max) by (nonlinear_arith)
            requires
                c.count == a.count + b.count,
                c.max >= a.max,
                c.max >= b.max,
                a.sum <= a.count * a.max,
                b.sum <= b.count * b.max,
                c.sum == a.sum + b.sum,
        ;
    }

    /// A well-formed summary whose extremes fit in 32 bits and whose count
    /// fits in 32 bits has a total that fits in 64 bits.
    pub proof fn lemma_sum_bounded(self)
        requires
            self.wf(),
            i32::MIN <= self.min,
            self.max <= i32::MAX,
            self.count <= u32::MAX,
        ensures
            -0x7fff_ffff_8000_0000 <= self.sum <= 0x7fff_fffe_8000_0001,
    {
        assert(self.count * self.min >= self.count * (-0x8000_0000)) by (nonlinear_arith)
            requires
                self.min >= -0x8000_0000,
        ;
        assert(self.count * self.max <= self.count * 0x7fff_ffff) by (nonlinear_arith)
            requires
                self.max <= 0x7fff_ffff,
        ;
    }
}

/// The quotient `sum / count` rounded to the nearest integer; a quotient
/// that lies halfway between two integers is rounded away from zero.
pub open spec fn rounded_mean(sum: int, count: int) -> int {
    if sum >= 0 {
        (2 * sum + count) / (2 * count)
    } else {
        -((2 * (-sum) + count) / (2 * count))
    }
}

/// The rounded mean is the integer nearest to the quotient, and of two
/// nearest integers the one farther from zero.
pub proof fn lemma_rounded_mean_nearest(sum: int, count: int)
    requires
        count >= 1,
    ensures
        sum >= 0 ==> -count < 2 * (count * rounded_mean(sum, count) - sum) <= count,
        sum < 0 ==> -count <= 2 * (count * rounded_mean(sum, count) - sum) < count,
{
    let a = if sum >= 0 { sum } else { -sum };
    let m = (2 * a + count) / (2 * count);
    vstd::arithmetic::div_mod::lemma_fundamental_div_mod(2 * a + count, 2 * count);
    vstd::arithmetic::div_mod::lemma_mod_bound(2 * a + count, 2 * count);
    assert((2 * count) * m == 2 * (count * m)) by (nonlinear_arith);
    assert(count * (-m) == -(count * m)) by (nonlinear_arith);
}

/// The rounded mean of a total that lies between `count` times `lo` and
/// `count` times `hi` lies between `lo` and `hi`.
pub proof fn lemma_rounded_mean_bounds(sum: int, count: int, lo: int, hi: int)
    requires
        count >= 1,
        count * lo <= sum <= count * hi,
    ensures
        lo <= rounded_mean(sum, count) <= hi,
{
    lemma_rounded_mean_nearest(sum, count);
    let m = rounded_mean(sum, count);
    assert(m <= hi) by (nonlinear_arith)
        requires
            count >= 1,
            sum <= count * hi,
            2 * (count * m - sum) <= count,
    ;
    assert(lo <= m) by (nonlinear_arith)
        requires
            count >= 1,
            count * lo <= sum,
            -count <= 2 * (count * m - sum),
    ;
}

/// The mean of a total over a count, rounded as `rounded_mean` says.
pub fn mean_tenths(sum: i64, count: u32) -> (mean: i64)
    requires
        count > 0,
    ensures
        mean == rounded_mean(sum as int, count as int),
{
    let negative: bool = sum < 0;
    let magnitude: u64 = if !negative {
        sum as u64
    } else if sum == i64::MIN {
        0x8000_0000_0000_0000
    } else {
        (-sum) as u64
    };
    let rounded: u64 = rounded_quotient(magnitude, count);
    if !negative {
        rounded as i64
    } else if rounded == 0x8000_0000_0000_0000 {
        i64::MIN
    } else {
        -(rounded as i64)
    }
}

/// The quotient of a magnitude by a count, rounded to the nearest integer,
/// halves upwards.
pub fn rounded_quotient(magnitude: u64, count: u32) -> (rounded: u64)
    requires
        count > 0,
    ensures
        rounded == (2 * magnitude + count) / (2 * count),
        rounded <= magnitude,
{
    let c: u64 = count as u64;
    let q: u64 = magnitude / c;
    let r: u64 = magnitude % c;
    proof {
        vstd::arithmetic::div_mod::lemma_fundamental_div_mod(magnitude as int, c as int);
        assert(magnitude == c * q + r);
        assert(q <= magnitude && (c >= 2 && r > 0 ==> q < magnitude)) by (nonlinear_arith)
            requires
                magnitude == c * q + r,
                c >= 1,
                q >= 0,
                r >= 0,
        ;
        if r >= c - r {
            assert(2 * magnitude + c == (q + 1) * (2 * c) + (2 * r - c)) by (nonlinear_arith)
                requires
                    magnitude == c * q + r,
            ;
            vstd::arithmetic::div_mod::lemma_fundamental_div_mod_converse(
                2 * magnitude + c,
                2 * c,
                q + 1,
                2 * r - c,
            );
        } else {
            assert(2 * magnitude + c == q * (2 * c) + (2 * r + c)) by (nonlinear_arith)
                requires
                    magnitude == c * q + r,
            ;
            vstd::arithmetic::div_mod::lemma_fundamental_div_mod_converse(
                2 * magnitude + c,
                2 * c,
                q as int,
                2 * r + c,
            );
        }
    }
    if r >= c - r {
        q + 1
    } else {
        q
    }
}

/// Running statistics of the readings seen for one key.  Readings are in
/// tenths of a unit.
#[derive(Clone, Copy, Debug, PartialEq, Eq, Structural)]
pub struct Stats {
    pub min: i32,
    pub max: i32,
    pub sum: i64,
    pub count: u32,
}

impl View for Stats {
    type V = Summary;

    open spec fn view(&self) -> Summary {
        Summary {
            min: self.min as int,
            max: self.max as int,
            sum: self.sum as int,
            count: self.count as nat,
        }
    }
}

impl Stats {
    /// The accumulator holds at least one reading and its total is
    /// consistent with its extremes.
    pub open spec fn wf(&self) -> bool {
        self@.wf()
    }

    /// Tells whether the accumulator is well formed.
    pub fn is_well_formed(&self) -> (ok: bool)
        ensures
            ok == self.wf(),
    {
        let count: i64 = self.count as i64;
        assert(-0x8000_0000 * 0xffff_ffff <= count * (self.min as i64) <= 0x7fff_ffff * 0xffff_ffff
            && -0x8000_0000 * 0xffff_ffff <= count * (self.max as i64) <= 0x7fff_ffff
            * 0xffff_ffff) by (nonlinear_arith)
            requires
                0 <= count <= 0xffff_ffff,
                -0x8000_0000 <= self.min <= 0x7fff_ffff,
                -0x8000_0000 <= self.max <= 0x7fff_ffff,
        ;
        self.count >= 1 && self.min <= self.max && count * (self.min as i64) <= self.sum
            && self.sum <= count * (self.max as i64)
    }

    /// An accumulator seeded with its first reading.
    pub fn new(value: i32) -> (s: Stats)
        ensures
            s@ == Summary::single(value as int),
            s.wf(),
    {
        let s = Stats { min: value, max: value, sum: value as i64, count: 1 };
        assert(s@.count * s@.min == s@.sum) by (nonlinear_arith)
            requires
                s@.count == 1,
                s@.min == s@.sum,
        ;
        s
    }

    /// The mean of the readings in tenths, rounded to the nearest tenth,
    /// halves away from zero.
    pub fn mean(&self) -> (mean: i32)
        requires
            self.wf(),
        ensures
            mean == self@.mean(),
    {
        proof {
            self@.lemma_mean_bounds();
        }
        mean_tenths(self.sum, self.count) as i32
    }

    /// Folds one more reading in.
    pub fn update(&mut self, value: i32)
        requires
            old(self).wf(),
            old(self).count < u32::MAX,
        ensures
            final(self)@ == old(self)@.push(value as int),
            final(self).wf(),
    {
        proof {
            assert(Summary::single(value as int).wf()) by (nonlinear_arith);
            Summary::lemma_combine_wf(self@, Summary::single(value as int));
            self@.lemma_sum_bounded();
            self@.push(value as int).lemma_sum_bounded();
        }
        if value < self.min {
            self.min = value;
        }
        if value > self.max {
            self.max = value;
        }
        self.sum = self.sum + value as i64;
        self.count = self.count + 1;
    }

    /// Folds another accumulator in.
    pub fn merge(&mut self, other: &Stats)
        requires
            old(self).wf(),
            other.wf(),
            old(self).count + other.count <= u32::MAX,
        ensures
            final(self)@ == old(self)@.combine(other@),
            final(self).wf(),
    {
        proof {
            Summary::lemma_combine_wf(self@, other@);
            self@.lemma_sum_bounded();
            other@.lemma_sum_bounded();
            self@.combine(other@).lemma_sum_bounded();
        }
        if other.min < self.min {
            self.min = other.min;
        }
        if other.max > self.max {
            self.max = other.max;
        }
        self.sum = self.sum + other.sum;
        self.count = self.count + other.count;
    }
}

} // verus!
