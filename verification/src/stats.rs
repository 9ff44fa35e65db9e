//! Per-key aggregates: minimum, maximum, running sum and count, with the
//! commutative, associative merge that makes the reduction order irrelevant.

use vstd::arithmetic::div_mod::{
    lemma_div_is_ordered, lemma_fundamental_div_mod_converse,
};
use vstd::arithmetic::mul::lemma_mul_inequality;
use vstd::prelude::*;

use crate::decimal::Decimal;

verus! {

/// The mathematical content of a [`Statistic`]: all values are in tenths,
/// the sum exact over the unbounded integers.
pub ghost struct StatModel {
    pub min: int,
    pub max: int,
    pub sum: int,
    pub count: int,
}

/// The aggregate of a single observed value.
pub open spec fn stat_single(v: int) -> StatModel {
    StatModel { min: v, max: v, sum: v, count: 1 }
}

/// The combine rule: least minimum, greatest maximum, summed sum and count.
pub open spec fn stat_merge(a: StatModel, b: StatModel) -> StatModel {
    StatModel {
        min: if a.min <= b.min {
            a.min
        } else {
            b.min
        },
        max: if a.max >= b.max {
            a.max
        } else {
            b.max
        },
        sum: a.sum + b.sum,
        count: a.count + b.count,
    }
}

/// Well-formedness of an aggregate over values in `[-999, 999]` tenths:
/// at least one observation, and the sum bracketed by `min` and `max`
/// scaled by the count.
pub open spec fn stat_wf(s: StatModel) -> bool {
    &&& -999 <= s.min <= s.max <= 999
    &&& s.count >= 1
    &&& s.min * s.count <= s.sum <= s.max * s.count
}

pub proof fn lemma_stat_single_wf(v: int)
    requires
        -999 <= v <= 999,
    ensures
        stat_wf(stat_single(v)),
{
}

/// The combine rule is commutative.
pub proof fn lemma_stat_merge_commutative(a: StatModel, b: StatModel)
    ensures
        stat_merge(a, b) == stat_merge(b, a),
{
}

/// The combine rule is associative.
pub proof fn lemma_stat_merge_associative(a: StatModel, b: StatModel, c: StatModel)
    ensures
        stat_merge(stat_merge(a, b), c) == stat_merge(a, stat_merge(b, c)),
{
}

/// Merging two well-formed aggregates yields a well-formed aggregate.
pub proof fn lemma_stat_merge_wf(a: StatModel, b: StatModel)
    requires
        stat_wf(a),
        stat_wf(b),
    ensures
        stat_wf(stat_merge(a, b)),
{
    let m = stat_merge(a, b);
    lemma_mul_inequality(m.min, a.min, a.count);
    lemma_mul_inequality(m.min, b.min, b.count);
    lemma_mul_inequality(a.max, m.max, a.count);
    lemma_mul_inequality(b.max, m.max, b.count);
    assert(m.min * (a.count + b.count) == m.min * a.count + m.min * b.count) by (nonlinear_arith);
    assert(m.max * (a.count + b.count) == m.max * a.count + m.max * b.count) by (nonlinear_arith);
    assert(m.min * a.count <= a.min * a.count);
    assert(m.min * b.count <= b.min * b.count);
    assert(a.max * a.count <= m.max * a.count);
    assert(b.max * b.count <= m.max * b.count);
}

/// A well-formed aggregate's fields are bounded by `999` times its count.
pub proof fn lemma_stat_sum_bound(s: StatModel)
    requires
        stat_wf(s),
    ensures
        -999 * s.count <= s.sum <= 999 * s.count,
{
    lemma_mul_inequality(-999, s.min, s.count);
    lemma_mul_inequality(s.max, 999, s.count);
}

/// The nearest integer to `s / c`, ties rounded away from zero: the mean in
/// tenths of an aggregate with sum `s` and count `c`.
pub open spec fn round_to_nearest(s: int, c: int) -> int
    recommends
        c >= 1,
{
    if s >= 0 {
        (2 * s + c) / (2 * c)
    } else {
        -((2 * (-s) + c) / (2 * c))
    }
}

/// `(c * (2 * m + 1)) / (2 * c) == m`: dividing a value half way between
/// `m * c` and `(m + 1) * c` rounds down to `m`.
proof fn lemma_scaled_half_odd(c: int, m: int)
    requires
        c >= 1,
    ensures
        (c * (2 * m + 1)) / (2 * c) == m,
{
    assert(c * (2 * m + 1) == m * (2 * c) + c) by (nonlinear_arith);
    lemma_fundamental_div_mod_converse(c * (2 * m + 1), 2 * c, m, c);
}

/// Bounds invariant: the rounded mean of a well-formed aggregate lies
/// between its minimum and its maximum.
pub proof fn lemma_bounds_invariant(s: StatModel)
    requires
        stat_wf(s),
    ensures
        s.min <= round_to_nearest(s.sum, s.count) <= s.max,
{
    let c = s.count;
    lemma_scaled_half_odd(c, s.min);
    lemma_scaled_half_odd(c, s.max);
    lemma_scaled_half_odd(c, -s.min);
    lemma_scaled_half_odd(c, -s.max);
    if s.sum >= 0 {
        let q = (2 * s.sum + c) / (2 * c);
        assert(c * (2 * s.min + 1) <= 2 * s.sum + c) by (nonlinear_arith)
            requires
                s.min * c <= s.sum,
                c >= 1,
        ;
        assert(2 * s.sum + c <= c * (2 * s.max + 1)) by (nonlinear_arith)
            requires
                s.sum <= s.max * c,
                c >= 1,
        ;
        lemma_div_is_ordered(c * (2 * s.min + 1), 2 * s.sum + c, 2 * c);
        lemma_div_is_ordered(2 * s.sum + c, c * (2 * s.max + 1), 2 * c);
    } else {
        let q = (2 * (-s.sum) + c) / (2 * c);
        assert(c * (2 * (-s.max) + 1) <= 2 * (-s.sum) + c) by (nonlinear_arith)
            requires
                s.sum <= s.max * c,
                c >= 1,
        ;
        assert(2 * (-s.sum) + c <= c * (2 * (-s.min) + 1)) by (nonlinear_arith)
            requires
                s.min * c <= s.sum,
                c >= 1,
        ;
        lemma_div_is_ordered(c * (2 * (-s.max) + 1), 2 * (-s.sum) + c, 2 * c);
        lemma_div_is_ordered(2 * (-s.sum) + c, c * (2 * (-s.min) + 1), 2 * c);
    }
}

/// The running aggregate for one key: minimum, maximum, exact sum of tenths
/// in an extended-precision accumulator, and the number of observations.
#[derive(Clone, Copy, Debug)]
pub struct Statistic {
    min: Decimal,
    max: Decimal,
    sum: i128,
    count: u64,
}

impl View for Statistic {
    type V = StatModel;

    closed spec fn view(&self) -> StatModel {
        StatModel { min: self.min@, max: self.max@, sum: self.sum as int, count: self.count as int }
    }
}

impl Statistic {
    /// The aggregate of one observation.
    pub fn new(value: Decimal) -> (r: Statistic)
        ensures
            r@ == stat_single(value@),
    {
        Statistic { min: value, max: value, sum: value.tenths() as i128, count: 1 }
    }

    /// Folds one more observation into the aggregate.
    pub fn push(&mut self, value: Decimal)
        requires
            stat_wf(old(self)@),
            -999 <= value@ <= 999,
            old(self)@.count < u64::MAX,
        ensures
            final(self)@ == stat_merge(old(self)@, stat_single(value@)),
            stat_wf(final(self)@),
    {
        proof {
            lemma_stat_sum_bound(self@);
            assert(999 * self@.count <= 999 * (u64::MAX as int)) by (nonlinear_arith)
                requires
                    self@.count <= u64::MAX as int,
            ;
            lemma_stat_single_wf(value@);
            lemma_stat_merge_wf(self@, stat_single(value@));
        }
        if value.tenths() < self.min.tenths() {
            self.min = value;
        }
        if value.tenths() > self.max.tenths() {
            self.max = value;
        }
        self.sum = self.sum + value.tenths() as i128;
        self.count = self.count + 1;
    }

    /// Merges another aggregate into this one: the result covers exactly the
    /// observations of both.
    pub fn merge(&mut self, other: &Statistic)
        requires
            stat_wf(old(self)@),
            stat_wf(other@),
            old(self)@.count + other@.count <= u64::MAX,
        ensures
            final(self)@ == stat_merge(old(self)@, other@),
            stat_wf(final(self)@),
    {
        proof {
            lemma_stat_sum_bound(self@);
            lemma_stat_sum_bound(other@);
            assert(999 * self@.count + 999 * other@.count <= 999 * (u64::MAX as int))
                by (nonlinear_arith)
                requires
                    self@.count + other@.count <= u64::MAX as int,
                    self@.count >= 1,
                    other@.count >= 1,
            ;
            lemma_stat_merge_wf(self@, other@);
        }
        if other.min.tenths() < self.min.tenths() {
            self.min = other.min;
        }
        if other.max.tenths() > self.max.tenths() {
            self.max = other.max;
        }
        self.sum = self.sum + other.sum;
        self.count = self.count + other.count;
    }

    /// The least observed value.
    pub fn min(&self) -> (r: Decimal)
        ensures
            r@ == self@.min,
    {
        self.min
    }

    /// The greatest observed value.
    pub fn max(&self) -> (r: Decimal)
        ensures
            r@ == self@.max,
    {
        self.max
    }

    /// The number of observations.
    pub fn count(&self) -> (r: u64)
        ensures
            r as int == self@.count,
    {
        self.count
    }

    /// The arithmetic mean `sum / count`, rounded to the nearest tenth with
    /// ties away from zero; always between the minimum and the maximum.
    pub fn mean(&self) -> (r: Decimal)
        requires
            stat_wf(self@),
        ensures
            r@ == round_to_nearest(self@.sum, self@.count),
            self@.min <= r@ <= self@.max,
    {
        proof {
            lemma_bounds_invariant(self@);
            lemma_stat_sum_bound(self@);
            assert(999 * self@.count <= 999 * (u64::MAX as int)) by (nonlinear_arith)
                requires
                    self@.count <= u64::MAX as int,
            ;
        }
        let c: u128 = self.count as u128;
        let negative = self.sum < 0;
        let magnitude: u128 = if negative {
            (-self.sum) as u128
        } else {
            self.sum as u128
        };
        let q: u128 = (2 * magnitude + c) / (2 * c);
        proof {
            if negative {
                assert(q == (2 * (-self@.sum) + self@.count) / (2 * self@.count));
            } else {
                assert(q == (2 * self@.sum + self@.count) / (2 * self@.count));
            }
            assert(-999 <= round_to_nearest(self@.sum, self@.count) <= 999);
        }
        if negative {
            Decimal::new(-(q as i16))
        } else {
            Decimal::new(q as i16)
        }
    }
}

} // verus!
