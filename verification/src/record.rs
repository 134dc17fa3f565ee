//! The statistics kept for one key, and the record that carries them.

use vstd::prelude::*;

verus! {

/// The least value, in tenths, that a record may hold.
pub const LOWEST: i64 = -1023;

/// The greatest value, in tenths, that a record may hold.
pub const HIGHEST: i64 = 1023;

/// Count, minimum, maximum and sum of the values seen for one key, in tenths.
pub struct Stats {
    pub count: int,
    pub min: int,
    pub max: int,
    pub sum: int,
}

/// The statistics of a single value.
pub open spec fn single(value: int) -> Stats {
    Stats { count: 1, min: value, max: value, sum: value }
}

/// The statistics of two groups of values taken together.
pub open spec fn combine(a: Stats, b: Stats) -> Stats {
    Stats {
        count: a.count + b.count,
        min: if a.min <= b.min { a.min } else { b.min },
        max: if a.max >= b.max { a.max } else { b.max },
        sum: a.sum + b.sum,
    }
}

impl Stats {
    /// At least one value was seen, each within the range, and the sum lies
    /// between `count` times the minimum and `count` times the maximum.
    pub open spec fn wf(self) -> bool {
        &&& self.count >= 1
        &&& LOWEST <= self.min <= self.max <= HIGHEST
        &&& self.count * self.min <= self.sum <= self.count * self.max
    }
}

/// `sum / count` rounded to the nearest integer, a tie going away from zero.
pub open spec fn mean_tenths(sum: int, count: int) -> int
    recommends
        count > 0,
{
    if sum >= 0 {
        (2 * sum + count) / (2 * count)
    } else {
        -((2 * (-sum) + count) / (2 * count))
    }
}

/// Combining keeps statistics well formed.
pub proof fn lemma_combine_wf(a: Stats, b: Stats)
    requires
        a.wf(),
        b.wf(),
    ensures
        combine(a, b).wf(),
{
    let c = combine(a, b);
    assert(a.count * c.min <= a.count * a.min) by (nonlinear_arith)
        requires
            c.min <= a.min,
            a.count >= 1,
    ;
    assert(b.count * c.min <= b.count * b.min) by (nonlinear_arith)
        requires
            c.min <= b.min,
            b.count >= 1,
    ;
    assert(a.count * a.max <= a.count * c.max) by (nonlinear_arith)
        requires
            a.max <= c.max,
            a.count >= 1,
    ;
    assert(b.count * b.max <= b.count * c.max) by (nonlinear_arith)
        requires
            b.max <= c.max,
            b.count >= 1,
    ;
    assert((a.count + b.count) * c.min == a.count * c.min + b.count * c.min
        && (a.count + b.count) * c.max == a.count * c.max + b.count * c.max)
        by (nonlinear_arith);
}

/// Combining does not depend on the order of its arguments.
pub proof fn lemma_combine_commutative(a: Stats, b: Stats)
    ensures
        combine(a, b) == combine(b, a),
{
}

/// Combining does not depend on how its arguments are grouped.
pub proof fn lemma_combine_associative(a: Stats, b: Stats, c: Stats)
    ensures
        combine(combine(a, b), c) == combine(a, combine(b, c)),
{
}

/// The rounded mean is the integer nearest to `sum / count`, and of two
/// nearest ones the one farther from zero.
pub proof fn lemma_mean_nearest(sum: int, count: int)
    requires
        count > 0,
    ensures
        ({
            let m = mean_tenths(sum, count);
            &&& -count <= 2 * (m * count - sum) <= count
            &&& sum >= 0 ==> 2 * (m * count - sum) > -count
            &&& sum < 0 ==> 2 * (m * count - sum) < count
        }),
{
    let a = if sum >= 0 { sum } else { -sum };
    let q = (2 * a + count) / (2 * count);
    let r = (2 * a + count) % (2 * count);
    assert(2 * a + count == (2 * count) * q + r && 0 <= r < 2 * count) by (nonlinear_arith)
        requires
            count > 0,
            q == (2 * a + count) / (2 * count),
            r == (2 * a + count) % (2 * count),
    ;
    assert((2 * count) * q == 2 * (q * count)) by (nonlinear_arith);
    assert((-q) * count == -(q * count)) by (nonlinear_arith);
}

/// The rounded mean lies between the minimum and the maximum.
pub proof fn lemma_mean_between(s: Stats)
    requires
        s.wf(),
    ensures
        s.min <= mean_tenths(s.sum, s.count) <= s.max,
{
    let m = mean_tenths(s.sum, s.count);
    lemma_mean_nearest(s.sum, s.count);
    assert(m <= s.max) by (nonlinear_arith)
        requires
            s.count >= 1,
            s.sum <= s.count * s.max,
            2 * (m * s.count - s.sum) <= s.count,
    ;
    assert(s.min <= m) by (nonlinear_arith)
        requires
            s.count >= 1,
            s.count * s.min <= s.sum,
            -s.count <= 2 * (m * s.count - s.sum),
    ;
}

/// The record of one key: its name and the statistics of its values.
pub struct City {
    pub name: Vec<u8>,
    pub count: u64,
    pub min: i64,
    pub max: i64,
    pub sum: i128,
}

impl City {
    /// The statistics that the record holds.
    pub open spec fn stats(&self) -> Stats {
        Stats { count: self.count as int, min: self.min as int, max: self.max as int, sum: self.sum as int }
    }

    /// The record's statistics are well formed.
    pub open spec fn wf(&self) -> bool {
        self.stats().wf()
    }

    /// The record of a key seen once, with `value`.
    pub fn new(name: Vec<u8>, value: i64) -> (city: City)
        requires
            LOWEST <= value <= HIGHEST,
        ensures
            city.name == name,
            city.stats() == single(value as int),
            city.wf(),
    {
        City { name, count: 1, min: value, max: value, sum: value as i128 }
    }

    /// Takes one more value of the key into the record.
    pub fn observe(&mut self, value: i64)
        requires
            old(self).wf(),
            LOWEST <= value <= HIGHEST,
            old(self).count < u64::MAX,
        ensures
            final(self).name == old(self).name,
            final(self).stats() == combine(old(self).stats(), single(value as int)),
            final(self).wf(),
    {
        proof {
            lemma_combine_wf(self.stats(), single(value as int));
            lemma_sum_fits(self.stats());
        }
        if value < self.min {
            self.min = value;
        }
        if value > self.max {
            self.max = value;
        }
        self.count += 1;
        self.sum += value as i128;
    }

    /// Takes the statistics of `other` into the record; the name stays.
    pub fn merge(&mut self, other: &City)
        requires
            old(self).wf(),
            other.wf(),
            old(self).count + other.count <= u64::MAX,
        ensures
            final(self).name == old(self).name,
            final(self).stats() == combine(old(self).stats(), other.stats()),
            final(self).wf(),
    {
        proof {
            lemma_combine_wf(self.stats(), other.stats());
            lemma_sum_fits(self.stats());
            lemma_sum_fits(other.stats());
        }
        if other.min < self.min {
            self.min = other.min;
        }
        if other.max > self.max {
            self.max = other.max;
        }
        self.count += other.count;
        self.sum += other.sum;
    }

    /// The mean of the values, in tenths, rounded to the nearest integer,
    /// a tie going away from zero.
    pub fn mean(&self) -> (m: i64)
        requires
            self.wf(),
        ensures
            m == mean_tenths(self.sum as int, self.count as int),
            self.min <= m <= self.max,
    {
        proof {
            lemma_mean_between(self.stats());
            lemma_sum_fits(self.stats());
        }
        let count = self.count as i128;
        if self.sum >= 0 {
            ((2 * self.sum + count) / (2 * count)) as i64
        } else {
            (-((2 * (-self.sum) + count) / (2 * count))) as i64
        }
    }
}

/// The sum of well-formed statistics is at most 1023 times the count in size.
pub proof fn lemma_sum_fits(s: Stats)
    requires
        s.wf(),
    ensures
        -1023 * s.count <= s.sum <= 1023 * s.count,
{
    assert(-1023 * s.count <= s.count * s.min) by (nonlinear_arith)
        requires
            s.count >= 1,
            -1023 <= s.min,
    ;
    assert(s.count * s.max <= 1023 * s.count) by (nonlinear_arith)
        requires
            s.count >= 1,
            s.max <= 1023,
    ;
}

} // verus!
