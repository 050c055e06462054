//! Statistics over latencies.

use crate::double;
use crate::double::{Arith, Double, Op};
use vstd::prelude::*;

verus! {

/// Statistics of a sample of latencies.
#[derive(Clone, Copy, Debug, PartialEq, Eq, Structural)]
pub struct Stats {
    pub mean: Double,
    pub median: Double,
    pub min: Double,
    pub max: Double,
    pub cv_percent: Double,
}

/// The values that are numbers.
pub open spec fn numbers(v: Seq<Double>) -> Seq<Double>
    decreases v.len(),
{
    if v.len() == 0 {
        seq![]
    } else if v.last().not_a_number() {
        numbers(v.drop_last())
    } else {
        numbers(v.drop_last()).push(v.last())
    }
}

/// The middle value, or half the sum of the two middle values.
pub open spec fn median_of(m: Arith, v: Seq<Double>) -> Double {
    let o = double::in_order(v);
    let n = o.len() as int;
    if n % 2 == 0 {
        m(Op::Quotient,
            seq![
                m(Op::Sum, seq![o[n / 2 - 1], o[n / 2]]),
                Double { bits: double::TWO },
            ],
        )
    } else {
        o[n / 2]
    }
}

/// The standard deviation in percent of a positive mean; zero where there is
/// one value only or no positive mean.
pub open spec fn variation(m: Arith, v: Seq<Double>) -> Double {
    let mean = m(Op::Mean, v);
    if v.len() <= 1 || !double::zero().less(mean) {
        double::zero()
    } else {
        m(Op::Product,
            seq![
                m(Op::Quotient, seq![m(Op::StdDev, v), mean]),
                Double { bits: double::HUNDRED },
            ],
        )
    }
}

/// The statistics of the numbers among the values; none where there is no number.
pub open spec fn stats_of(m: Arith, values: Seq<Double>) -> Option<Stats> {
    let v = numbers(values);
    if v.len() == 0 {
        None
    } else {
        Some(
            Stats {
                mean: m(Op::Mean, v),
                median: median_of(m, v),
                min: double::lowest(v),
                max: double::highest(v),
                cv_percent: variation(m, v),
            },
        )
    }
}

/// What holds of the statistics of values whatever the arithmetic gives: the
/// least and the greatest number, the middle one of an odd number of them, and
/// no variation of one number alone or around a mean that is not positive.
pub open spec fn holds_of(s: Stats, values: Seq<Double>) -> bool {
    let v = numbers(values);
    &&& s.min == double::lowest(v)
    &&& s.max == double::highest(v)
    &&& v.len() % 2 == 1 ==> s.median == double::in_order(v)[v.len() as int / 2]
    &&& v.len() == 1 || !double::zero().less(s.mean) ==> s.cv_percent == double::zero()
}

/// The values that are numbers.
fn keep_numbers(values: &[Double]) -> (r: Vec<Double>)
    ensures
        r@ == numbers(values@),
{
    let mut out: Vec<Double> = Vec::new();
    let mut i: usize = 0;
    while i < values.len()
        invariant
            i <= values@.len(),
            out@ == numbers(values@.take(i as int)),
        decreases values@.len() - i,
    {
        assert(values@.take(i + 1).drop_last() == values@.take(i as int));
        if !values[i].is_nan() {
            out.push(values[i]);
        }
        i = i + 1;
    }
    assert(values@.take(i as int) == values@);
    out
}

/// The middle value, or half the sum of the two middle values.
fn find_median<F: Fn(Op, &[Double]) -> Double>(f: &F, v: &[Double]) -> (r: Double)
    requires
        double::answers(*f),
        v@.len() > 0,
    ensures
        forall|m: Arith| #[trigger] double::describes(m, *f) ==> r == median_of(m, v@),
        v@.len() % 2 == 1 ==> r == double::in_order(v@)[v@.len() as int / 2],
{
    let o: Vec<Double> = double::sort(v);
    let n: usize = o.len();
    if n % 2 == 0 {
        let sum: Double = double::apply(f, Op::Sum, o[n / 2 - 1], o[n / 2]);
        double::apply(f, Op::Quotient, sum, Double { bits: double::TWO })
    } else {
        o[n / 2]
    }
}

impl Stats {
    /// The statistics of the values, without those that are not a number.
    /// `None` where no value is a number.
    pub fn compute<F: Fn(Op, &[Double]) -> Double>(f: &F, values: &[Double]) -> (r: Option<Stats>)
        requires
            double::answers(*f),
        ensures
            forall|m: Arith| #[trigger]
                double::describes(m, *f) ==> r == stats_of(m, values@),
            match r {
                Some(s) => numbers(values@).len() > 0 && holds_of(s, values@),
                None => numbers(values@).len() == 0,
            },
    {
        let valid: Vec<Double> = keep_numbers(values);
        if valid.len() == 0 {
            return None;
        }
        let mean: Double = double::evaluate(f, Op::Mean, valid.as_slice());
        let zero: Double = Double { bits: 0 };
        let cv_percent: Double = if valid.len() <= 1 {
            zero
        } else {
            let deviation: Double = double::evaluate(f, Op::StdDev, valid.as_slice());
            if zero.lt(mean) {
                let ratio: Double = double::apply(f, Op::Quotient, deviation, mean);
                double::apply(f, Op::Product, ratio, Double { bits: double::HUNDRED })
            } else {
                zero
            }
        };
        let min: Double = double::min_of(valid.as_slice());
        let max: Double = double::max_of(valid.as_slice());
        let median: Double = find_median(f, valid.as_slice());
        Some(Stats { mean, median, min, max, cv_percent })
    }
}

/// How the samples of a cell become one value.
#[derive(Clone, Copy, Debug, PartialEq, Eq, Structural)]
pub enum SampleAgg {
    Mean,
    Median,
}

impl SampleAgg {
    /// The statistic that stands for the cell.
    pub open spec fn picked(self, stats: Stats) -> Double {
        match self {
            SampleAgg::Mean => stats.mean,
            SampleAgg::Median => stats.median,
        }
    }

    /// The statistic that stands for the cell.
    pub fn collapse(self, stats: &Stats) -> (r: Double)
        ensures
            r == self.picked(*stats),
    {
        match self {
            SampleAgg::Mean => stats.mean,
            SampleAgg::Median => stats.median,
        }
    }

    /// The name of the choice.
    pub open spec fn named(self) -> Seq<char> {
        match self {
            SampleAgg::Mean => "mean"@,
            SampleAgg::Median => "median"@,
        }
    }

    /// The name of the choice.
    pub fn name(self) -> (r: &'static str)
        ensures
            r@ == self.named(),
    {
        match self {
            SampleAgg::Mean => "mean",
            SampleAgg::Median => "median",
        }
    }
}

// ---------------------------------------------------------------------------
// Laws
// ---------------------------------------------------------------------------

/// What is kept of the values are numbers, each of them one of the values; all
/// of them where every value is a number.
pub proof fn law_numbers(v: Seq<Double>)
    ensures
        numbers(v).len() <= v.len(),
        forall|i: int|
            0 <= i < numbers(v).len() ==> !(#[trigger] numbers(v)[i]).not_a_number() && v.contains(
                numbers(v)[i],
            ),
        numbers(v).len() == 0 <==> (forall|i: int|
            0 <= i < v.len() ==> (#[trigger] v[i]).not_a_number()),
        (forall|i: int| 0 <= i < v.len() ==> !(#[trigger] v[i]).not_a_number()) ==> numbers(v) == v,
    decreases v.len(),
{
    if v.len() == 0 {
        assert(numbers(v) =~= v);
    } else {
        let d = v.drop_last();
        law_numbers(d);
        let x = v.last();
        assert(v[v.len() - 1] == x);
        assert forall|i: int| 0 <= i < numbers(v).len() implies !(#[trigger] numbers(
            v,
        )[i]).not_a_number() && v.contains(numbers(v)[i]) by {
            if i < numbers(d).len() {
                assert(numbers(v)[i] == numbers(d)[i]);
                let k = choose|k: int| 0 <= k < d.len() && d[k] == numbers(d)[i];
                assert(v[k] == numbers(v)[i]);
            }
        }
        if numbers(v).len() == 0 {
            assert forall|i: int| 0 <= i < v.len() implies (#[trigger] v[i]).not_a_number() by {
                if i < d.len() {
                    assert(d[i].not_a_number());
                }
            }
        }
        if forall|i: int| 0 <= i < v.len() ==> (#[trigger] v[i]).not_a_number() {
            assert forall|i: int| 0 <= i < d.len() implies (#[trigger] d[i]).not_a_number() by {
                assert(d[i] == v[i]);
            }
        }
        if forall|i: int| 0 <= i < v.len() ==> !(#[trigger] v[i]).not_a_number() {
            assert forall|i: int| 0 <= i < d.len() implies !(#[trigger] d[i]).not_a_number() by {
                assert(d[i] == v[i]);
            }
            assert(numbers(v) =~= v);
        }
    }
}

/// There are no statistics exactly where no value is a number.
pub proof fn law_stats_when_numbers(m: Arith, v: Seq<Double>)
    ensures
        stats_of(m, v) is None <==> (forall|i: int|
            0 <= i < v.len() ==> (#[trigger] v[i]).not_a_number()),
{
    law_numbers(v);
}

/// The least and the greatest value of the statistics are among the values,
/// are numbers, and every value that is a number lies between them.
pub proof fn law_stats_bounds(m: Arith, v: Seq<Double>)
    requires
        stats_of(m, v) is Some,
    ensures
        ({
            let s = stats_of(m, v)->0;
            &&& v.contains(s.min)
            &&& v.contains(s.max)
            &&& !s.min.not_a_number()
            &&& !s.max.not_a_number()
            &&& forall|i: int|
                0 <= i < v.len() && !(#[trigger] v[i]).not_a_number() ==> s.min.rank()
                    <= v[i].rank() <= s.max.rank()
        }),
{
    let n = numbers(v);
    law_numbers(v);
    double::law_bounds(n);
    let a = choose|k: int| 0 <= k < n.len() && n[k] == double::lowest(n);
    let b = choose|k: int| 0 <= k < n.len() && n[k] == double::highest(n);
    assert(v.contains(n[a]));
    assert(v.contains(n[b]));
    assert forall|i: int| 0 <= i < v.len() && !(#[trigger] v[i]).not_a_number() implies double::lowest(
        n,
    ).rank() <= v[i].rank() <= double::highest(n).rank() by {
        lemma_number_kept(v, i);
        let k = choose|k: int| 0 <= k < n.len() && n[k] == v[i];
        assert(double::lowest(n).rank() <= n[k].rank());
    }
}

proof fn lemma_number_kept(v: Seq<Double>, i: int)
    requires
        0 <= i < v.len(),
        !v[i].not_a_number(),
    ensures
        numbers(v).contains(v[i]),
    decreases v.len(),
{
    let d = v.drop_last();
    let n = numbers(v);
    if i == v.len() - 1 {
        assert(n[n.len() - 1] == v[i]);
    } else {
        lemma_number_kept(d, i);
        let k = choose|k: int| 0 <= k < numbers(d).len() && numbers(d)[k] == v[i];
        assert(n[k] == v[i]);
    }
}

/// One number alone is its own median, minimum and maximum, and does not vary.
pub proof fn law_single_value(m: Arith, x: Double)
    requires
        !x.not_a_number(),
    ensures
        stats_of(m, seq![x]) == Some(
            Stats {
                mean: m(Op::Mean, seq![x]),
                median: x,
                min: x,
                max: x,
                cv_percent: double::zero(),
            },
        ),
{
    let v = seq![x];
    law_numbers(v);
    assert(numbers(v) == v) by {
        assert forall|i: int| 0 <= i < v.len() implies !(#[trigger] v[i]).not_a_number() by {
        }
    }
    assert(v.drop_last() =~= Seq::<Double>::empty());
    assert(double::in_order(v.drop_last()) == Seq::<Double>::empty());
    assert(double::in_order(v) =~= v);
}

/// A median of an odd number of numbers is one of them, and as many of the
/// ordered values stand before it as after it.
pub proof fn law_odd_median(m: Arith, v: Seq<Double>)
    requires
        v.len() % 2 == 1,
    ensures
        median_of(m, v) == double::in_order(v)[v.len() as int / 2],
        v.contains(median_of(m, v)),
        forall|i: int|
            0 <= i < v.len() / 2 ==> (#[trigger] double::in_order(v)[i]).rank() <= median_of(
                m,
                v,
            ).rank() <= double::in_order(v)[v.len() - 1 - i].rank(),
{
    broadcast use vstd::seq_lib::group_to_multiset_ensures;

    double::law_in_order(v);
    let o = double::in_order(v);
    let m = o[v.len() as int / 2];
    assert(o.contains(m));
    assert(o.to_multiset().count(m) > 0);
    assert(v.to_multiset().count(m) > 0);
    assert(v.contains(m));
}

/// What is kept of the values are those that are numbers, each as often as it
/// was there and in the same order.
pub proof fn law_numbers_kept(v: Seq<Double>)
    ensures
        numbers(v) == v.filter(|x: Double| !x.not_a_number()),
    decreases v.len(),
{
    reveal(Seq::filter);
    if v.len() > 0 {
        law_numbers_kept(v.drop_last());
    }
    assert(numbers(v) =~= v.filter(|x: Double| !x.not_a_number()));
}

/// The median of an even number of numbers is half the sum of two of the
/// ordered values that stand next to each other: as many stand before the
/// first of them as after the second.
pub proof fn law_even_median(m: Arith, v: Seq<Double>) -> (i: int)
    requires
        v.len() > 0,
        v.len() % 2 == 0,
    ensures
        0 <= i < v.len() - 1,
        i == v.len() - 1 - (i + 1),
        median_of(m, v) == m(
            Op::Quotient,
            seq![
                m(Op::Sum, seq![double::in_order(v)[i], double::in_order(v)[i + 1]]),
                Double { bits: 0x4000_0000_0000_0000 },
            ],
        ),
        forall|k: int|
            0 <= k <= i ==> (#[trigger] double::in_order(v)[k]).rank() <= double::in_order(
                v,
            )[i].rank(),
        forall|k: int|
            i < k < v.len() ==> double::in_order(v)[i + 1].rank() <= (#[trigger] double::in_order(
                v,
            )[k]).rank(),
        v.contains(double::in_order(v)[i]),
        v.contains(double::in_order(v)[i + 1]),
{
    broadcast use vstd::seq_lib::group_to_multiset_ensures;

    double::law_in_order(v);
    let o = double::in_order(v);
    let i = v.len() as int / 2 - 1;
    assert(o.contains(o[i]) && o.contains(o[i + 1]));
    assert(o.to_multiset().count(o[i]) > 0 && o.to_multiset().count(o[i + 1]) > 0);
    assert(v.to_multiset().count(o[i]) > 0 && v.to_multiset().count(o[i + 1]) > 0);
    i
}

/// The statistics are those of the numbers among the values: the mean is their
/// mean, the median their median, and the variation of two or more around a
/// positive mean is their deviation as a share of the mean, times 100.
pub proof fn law_stats(m: Arith, values: Seq<Double>)
    requires
        exists|i: int| 0 <= i < values.len() && !(#[trigger] values[i]).not_a_number(),
    ensures
        ({
            let v = values.filter(|x: Double| !x.not_a_number());
            let s = stats_of(m, values)->0;
            &&& stats_of(m, values) is Some
            &&& s.mean == m(Op::Mean, v)
            &&& s.median == median_of(m, v)
            &&& v.len() == 1 ==> s.cv_percent == Double { bits: 0 }
            &&& !(Double { bits: 0 }).less(s.mean) ==> s.cv_percent == Double { bits: 0 }
            &&& v.len() >= 2 && (Double { bits: 0 }).less(s.mean) ==> s.cv_percent == m(
                Op::Product,
                seq![
                    m(Op::Quotient, seq![m(Op::StdDev, v), s.mean]),
                    Double { bits: 0x4059_0000_0000_0000 },
                ],
            )
        }),
{
    law_numbers(values);
    law_numbers_kept(values);
}

/// Values that are not numbers change nothing: statistics of values with and
/// without them are the same.
pub proof fn law_stats_ignore_rest(m: Arith, a: Seq<Double>, x: Double, b: Seq<Double>)
    requires
        x.not_a_number(),
    ensures
        stats_of(m, a.push(x) + b) == stats_of(m, a + b),
    decreases b.len(),
{
    lemma_numbers_of_both(a.push(x), b);
    lemma_numbers_of_both(a, b);
    assert(a.push(x).drop_last() =~= a);
}

proof fn lemma_numbers_of_both(a: Seq<Double>, b: Seq<Double>)
    ensures
        numbers(a + b) == numbers(a) + numbers(b),
    decreases b.len(),
{
    if b.len() == 0 {
        assert(a + b =~= a);
        assert(numbers(a) + numbers(b) =~= numbers(a));
    } else {
        lemma_numbers_of_both(a, b.drop_last());
        assert((a + b).drop_last() =~= a + b.drop_last());
        assert(numbers(a + b) =~= numbers(a) + numbers(b));
    }
}

/// The value that stands for a cell is its mean or its median, as asked for.
pub proof fn law_picked(s: Stats)
    ensures
        SampleAgg::Mean.picked(s) == s.mean,
        SampleAgg::Median.picked(s) == s.median,
{
}

} // verus!
