//! Latencies as IEEE 754 doubles, held by their bits.
//!
//! The order of two doubles, and whether one is a number at all, can be read
//! off their bits, so every comparison is made here. Arithmetic is not: it is
//! done by a function that the caller hands in, which is told the operation
//! and the operands.

use vstd::prelude::*;

verus! {

/// A double, by its bits.
#[derive(Clone, Copy, Debug, PartialEq, Eq, Structural)]
pub struct Double {
    pub bits: u64,
}

/// The bit of the sign.
pub const SIGN: u64 = 0x8000_0000_0000_0000;

/// The bits of positive infinity. Above it, without the sign, stands what is not a number.
pub const INFINITY: u64 = 0x7ff0_0000_0000_0000;

/// The bits of 1.
pub const ONE: u64 = 0x3ff0_0000_0000_0000;

/// The bits of 2.
pub const TWO: u64 = 0x4000_0000_0000_0000;

/// The bits of 99.
pub const NINETY_NINE: u64 = 0x4058_c000_0000_0000;

/// The bits of 100.
pub const HUNDRED: u64 = 0x4059_0000_0000_0000;

/// The bits of 1073741824, the bytes of a GiB.
pub const GIB: u64 = 0x41d0_0000_0000_0000;

/// The bits of a value that is not a number.
pub const NAN: u64 = 0x7ff8_0000_0000_0000;

impl Double {
    /// The bits without the sign.
    pub open spec fn magnitude(self) -> int {
        if self.bits >= SIGN {
            self.bits - SIGN
        } else {
            self.bits as int
        }
    }

    /// Whether this is not a number.
    pub open spec fn not_a_number(self) -> bool {
        self.magnitude() > INFINITY
    }

    /// The place of a number in the order of numbers. Both zeros have the same.
    pub open spec fn rank(self) -> int {
        if self.bits >= SIGN {
            -self.magnitude()
        } else {
            self.magnitude()
        }
    }

    /// Whether this is a number less than the number `other`.
    pub open spec fn less(self, other: Double) -> bool {
        !self.not_a_number() && !other.not_a_number() && self.rank() < other.rank()
    }

    /// Whether this is not a number.
    pub fn is_nan(self) -> (r: bool)
        ensures
            r == self.not_a_number(),
    {
        if self.bits >= SIGN {
            self.bits - SIGN > INFINITY
        } else {
            self.bits > INFINITY
        }
    }

    /// The place of a number in the order of numbers.
    pub fn order(self) -> (r: i64)
        ensures
            r == self.rank(),
    {
        if self.bits >= SIGN {
            -((self.bits - SIGN) as i64)
        } else {
            self.bits as i64
        }
    }

    /// Whether this is a number less than the number `other`.
    pub fn lt(self, other: Double) -> (r: bool)
        ensures
            r == self.less(other),
    {
        !self.is_nan() && !other.is_nan() && self.order() < other.order()
    }
}

/// Zero.
pub open spec fn zero() -> Double {
    Double { bits: 0 }
}

// ---------------------------------------------------------------------------
// Arithmetic
// ---------------------------------------------------------------------------

/// An operation on doubles.
#[derive(Clone, Copy, Debug, PartialEq, Eq, Structural)]
pub enum Op {
    /// The mean of all operands.
    Mean,
    /// The standard deviation of the operands as a sample: the squares are
    /// divided by one less than there are operands.
    StdDev,
    /// The sum of two operands.
    Sum,
    /// The product of two operands.
    Product,
    /// The first of two operands divided by the second.
    Quotient,
    /// The square root of one operand.
    Root,
    /// A count as a double. There is no operand.
    Count(u64),
}

/// Whether the operation is made for that many operands.
pub open spec fn takes(op: Op, n: nat) -> bool {
    match op {
        Op::Mean | Op::StdDev => n > 0,
        Op::Sum | Op::Product | Op::Quotient => n == 2,
        Op::Root => n == 1,
        Op::Count(_) => n == 0,
    }
}

/// A function that says what each operation gives on its operands.
pub type Arith = spec_fn(Op, Seq<Double>) -> Double;

/// Whether `f` can be asked for every operation.
pub open spec fn answers<F: Fn(Op, &[Double]) -> Double>(f: F) -> bool {
    forall|op: Op, xs: &[Double]| takes(op, xs@.len()) ==> #[trigger] call_requires(f, (op, xs))
}

/// Whether `m` says what `f` gives.
pub open spec fn describes<F: Fn(Op, &[Double]) -> Double>(m: Arith, f: F) -> bool {
    forall|op: Op, xs: &[Double], r: Double| #[trigger]
        call_ensures(f, (op, xs), r) ==> r == m(op, xs@)
}

/// The result of an operation on all of `xs`.
pub fn evaluate<F: Fn(Op, &[Double]) -> Double>(f: &F, op: Op, xs: &[Double]) -> (r: Double)
    requires
        answers(*f),
        takes(op, xs@.len()),
    ensures
        forall|m: Arith| #[trigger] describes(m, *f) ==> r == m(op, xs@),
{
    f(op, xs)
}

/// The result of an operation on two operands.
pub fn apply<F: Fn(Op, &[Double]) -> Double>(f: &F, op: Op, a: Double, b: Double) -> (r: Double)
    requires
        answers(*f),
        takes(op, 2),
    ensures
        forall|m: Arith| #[trigger] describes(m, *f) ==> r == m(op, seq![a, b]),
{
    let mut xs: Vec<Double> = Vec::new();
    xs.push(a);
    xs.push(b);
    assert(xs@ =~= seq![a, b]);
    evaluate(f, op, xs.as_slice())
}

/// The square root of `a`.
pub fn root<F: Fn(Op, &[Double]) -> Double>(f: &F, a: Double) -> (r: Double)
    requires
        answers(*f),
    ensures
        forall|m: Arith| #[trigger] describes(m, *f) ==> r == m(Op::Root, seq![a]),
{
    let mut xs: Vec<Double> = Vec::new();
    xs.push(a);
    assert(xs@ =~= seq![a]);
    evaluate(f, Op::Root, xs.as_slice())
}

/// The count `n` as a double.
pub fn count<F: Fn(Op, &[Double]) -> Double>(f: &F, n: u64) -> (r: Double)
    requires
        answers(*f),
    ensures
        forall|m: Arith| #[trigger] describes(m, *f) ==> r == m(Op::Count(n), seq![]),
{
    let xs: Vec<Double> = Vec::new();
    assert(xs@ =~= Seq::<Double>::empty());
    evaluate(f, Op::Count(n), xs.as_slice())
}

// ---------------------------------------------------------------------------
// Text
// ---------------------------------------------------------------------------

/// A function that says how each double is written, to so many decimals.
pub type Notation = spec_fn(u8, Double) -> Seq<char>;

/// Whether `g` can be asked to write every double.
pub open spec fn writes<G: Fn(u8, Double) -> String>(g: G) -> bool {
    forall|decimals: u8, v: Double| #[trigger] call_requires(g, (decimals, v))
}

/// Whether `w` says what `g` writes.
pub open spec fn spells<G: Fn(u8, Double) -> String>(w: Notation, g: G) -> bool {
    forall|decimals: u8, v: Double, s: String| #[trigger]
        call_ensures(g, (decimals, v), s) ==> s@ == w(decimals, v)
}

/// The text of a double, to so many decimals.
pub fn write_double<G: Fn(u8, Double) -> String>(g: &G, decimals: u8, v: Double) -> (r: String)
    requires
        writes(*g),
    ensures
        forall|w: Notation| #[trigger] spells(w, *g) ==> r@ == w(decimals, v),
{
    g(decimals, v)
}

// ---------------------------------------------------------------------------
// Order
// ---------------------------------------------------------------------------

/// Whether the places in the order never fall.
pub open spec fn rising(v: Seq<Double>) -> bool {
    forall|i: int, j: int| 0 <= i < j < v.len() ==> v[i].rank() <= v[j].rank()
}

/// `v` with `x` put after all that are not above it, where `v` is rising.
pub open spec fn with_value(v: Seq<Double>, x: Double) -> Seq<Double>
    decreases v.len(),
{
    if v.len() == 0 || v.last().rank() <= x.rank() {
        v.push(x)
    } else {
        with_value(v.drop_last(), x).push(v.last())
    }
}

/// The values in rising order; equal ones keep theirs.
pub open spec fn in_order(v: Seq<Double>) -> Seq<Double>
    decreases v.len(),
{
    if v.len() == 0 {
        seq![]
    } else {
        with_value(in_order(v.drop_last()), v.last())
    }
}

/// The first of the lowest values.
pub open spec fn lowest(v: Seq<Double>) -> Double
    recommends
        v.len() > 0,
    decreases v.len(),
{
    if v.len() <= 1 {
        v[0]
    } else if v.last().rank() < lowest(v.drop_last()).rank() {
        v.last()
    } else {
        lowest(v.drop_last())
    }
}

/// The last of the highest values.
pub open spec fn highest(v: Seq<Double>) -> Double
    recommends
        v.len() > 0,
    decreases v.len(),
{
    if v.len() <= 1 {
        v[0]
    } else if v.last().rank() >= highest(v.drop_last()).rank() {
        v.last()
    } else {
        highest(v.drop_last())
    }
}

/// Where a value is put: everything before is not above it, everything after is.
proof fn lemma_with_value_at(v: Seq<Double>, x: Double, p: int)
    requires
        0 <= p <= v.len(),
        forall|i: int| 0 <= i < p ==> (#[trigger] v[i]).rank() <= x.rank(),
        forall|i: int| p <= i < v.len() ==> (#[trigger] v[i]).rank() > x.rank(),
    ensures
        with_value(v, x) == v.insert(p, x),
    decreases v.len(),
{
    if p == v.len() {
        if v.len() > 0 {
            assert(v[v.len() - 1].rank() <= x.rank());
        }
        assert(v.push(x) =~= v.insert(p, x));
    } else {
        assert(v[v.len() - 1].rank() > x.rank());
        let d = v.drop_last();
        assert forall|i: int| 0 <= i < p implies (#[trigger] d[i]).rank() <= x.rank() by {
            assert(d[i] == v[i]);
        }
        assert forall|i: int| p <= i < d.len() implies (#[trigger] d[i]).rank() > x.rank() by {
            assert(d[i] == v[i]);
        }
        lemma_with_value_at(d, x, p);
        assert(d.insert(p, x).push(v.last()) =~= v.insert(p, x));
    }
}

/// Where a value belongs among rising ones.
proof fn lemma_place(v: Seq<Double>, x: Double) -> (p: int)
    requires
        rising(v),
    ensures
        0 <= p <= v.len(),
        forall|i: int| 0 <= i < p ==> (#[trigger] v[i]).rank() <= x.rank(),
        forall|i: int| p <= i < v.len() ==> (#[trigger] v[i]).rank() > x.rank(),
    decreases v.len(),
{
    if v.len() == 0 || v.last().rank() <= x.rank() {
        assert forall|i: int| 0 <= i < v.len() implies (#[trigger] v[i]).rank() <= x.rank() by {
            if i < v.len() - 1 {
                assert(v[i].rank() <= v[v.len() - 1].rank());
            }
        }
        v.len() as int
    } else {
        let d = v.drop_last();
        let p = lemma_place(d, x);
        assert forall|i: int| 0 <= i < p implies (#[trigger] v[i]).rank() <= x.rank() by {
            assert(d[i] == v[i]);
        }
        assert forall|i: int| p <= i < v.len() implies (#[trigger] v[i]).rank() > x.rank() by {
            if i < d.len() {
                assert(d[i] == v[i]);
            }
        }
        p
    }
}

/// Putting the values in order makes them rise, and keeps each as often as it was there.
pub proof fn law_in_order(v: Seq<Double>)
    ensures
        rising(in_order(v)),
        in_order(v).len() == v.len(),
        in_order(v).to_multiset() == v.to_multiset(),
    decreases v.len(),
{
    broadcast use vstd::seq_lib::group_to_multiset_ensures;

    if v.len() == 0 {
        assert(in_order(v) =~= v);
    } else {
        let d = v.drop_last();
        let x = v.last();
        law_in_order(d);
        let o = in_order(d);
        let p = lemma_place(o, x);
        lemma_with_value_at(o, x, p);
        let r = o.insert(p, x);
        assert forall|i: int, j: int| 0 <= i < j < r.len() implies r[i].rank() <= r[j].rank() by {
            let a = if i < p {
                o[i]
            } else if i == p {
                x
            } else {
                o[i - 1]
            };
            assert(r[i] == a);
            let b = if j < p {
                o[j]
            } else if j == p {
                x
            } else {
                o[j - 1]
            };
            assert(r[j] == b);
        }
        assert(v =~= d.push(x));
        assert(r.to_multiset() == o.to_multiset().insert(x));
        assert(v.to_multiset() == d.to_multiset().insert(x));
    }
}

/// The values in rising order; equal ones keep theirs.
pub fn sort(v: &[Double]) -> (r: Vec<Double>)
    ensures
        r@ == in_order(v@),
        rising(r@),
        r@.len() == v@.len(),
{
    let mut out: Vec<Double> = Vec::new();
    let mut i: usize = 0;
    while i < v.len()
        invariant
            i <= v@.len(),
            out@ == in_order(v@.take(i as int)),
        decreases v@.len() - i,
    {
        let x: Double = v[i];
        let at: i64 = x.order();
        proof {
            law_in_order(v@.take(i as int));
            assert(v@.take(i + 1).drop_last() == v@.take(i as int));
        }
        let mut low: usize = 0;
        let mut high: usize = out.len();
        while low < high
            invariant
                low <= high <= out@.len(),
                rising(out@),
                at == x.rank(),
                forall|k: int| 0 <= k < low ==> (#[trigger] out@[k]).rank() <= at,
                forall|k: int| high <= k < out@.len() ==> (#[trigger] out@[k]).rank() > at,
            decreases high - low,
        {
            let mid: usize = low + (high - low) / 2;
            if out[mid].order() <= at {
                assert forall|k: int| 0 <= k < mid + 1 implies (#[trigger] out@[k]).rank() <= at by {
                    if k < mid {
                        assert(out@[k].rank() <= out@[mid as int].rank());
                    }
                }
                low = mid + 1;
            } else {
                assert forall|k: int| mid <= k < out@.len() implies (#[trigger] out@[k]).rank() > at by {
                    if k > mid {
                        assert(out@[mid as int].rank() <= out@[k].rank());
                    }
                }
                high = mid;
            }
        }
        proof {
            lemma_with_value_at(out@, x, low as int);
        }
        out.insert(low, x);
        i = i + 1;
    }
    proof {
        assert(v@.take(i as int) == v@);
        law_in_order(v@);
    }
    out
}

/// The first of the lowest values.
pub fn min_of(v: &[Double]) -> (r: Double)
    requires
        v@.len() > 0,
    ensures
        r == lowest(v@),
{
    let mut r: Double = v[0];
    let mut i: usize = 1;
    assert(lowest(v@.take(1)) == v@[0]);
    while i < v.len()
        invariant
            1 <= i <= v@.len(),
            r == lowest(v@.take(i as int)),
        decreases v@.len() - i,
    {
        assert(v@.take(i + 1).drop_last() == v@.take(i as int));
        if v[i].order() < r.order() {
            r = v[i];
        }
        i = i + 1;
    }
    assert(v@.take(i as int) == v@);
    r
}

/// The last of the highest values.
pub fn max_of(v: &[Double]) -> (r: Double)
    requires
        v@.len() > 0,
    ensures
        r == highest(v@),
{
    let mut r: Double = v[0];
    let mut i: usize = 1;
    assert(highest(v@.take(1)) == v@[0]);
    while i < v.len()
        invariant
            1 <= i <= v@.len(),
            r == highest(v@.take(i as int)),
        decreases v@.len() - i,
    {
        assert(v@.take(i + 1).drop_last() == v@.take(i as int));
        if v[i].order() >= r.order() {
            r = v[i];
        }
        i = i + 1;
    }
    assert(v@.take(i as int) == v@);
    r
}

/// The lowest and the highest value are among the values, and no value lies
/// outside them.
pub proof fn law_bounds(v: Seq<Double>)
    requires
        v.len() > 0,
    ensures
        v.contains(lowest(v)),
        v.contains(highest(v)),
        forall|i: int|
            0 <= i < v.len() ==> lowest(v).rank() <= (#[trigger] v[i]).rank() <= highest(v).rank(),
    decreases v.len(),
{
    if v.len() == 1 {
        assert(v[0] == lowest(v));
    } else {
        let d = v.drop_last();
        law_bounds(d);
        let a = choose|k: int| 0 <= k < d.len() && d[k] == lowest(d);
        let b = choose|k: int| 0 <= k < d.len() && d[k] == highest(d);
        assert(v[a] == lowest(d));
        assert(v[b] == highest(d));
        assert(v[v.len() - 1] == v.last());
        assert forall|i: int| 0 <= i < v.len() implies lowest(v).rank() <= (#[trigger] v[i]).rank()
            <= highest(v).rank() by {
            if i < d.len() {
                assert(d[i] == v[i]);
            }
        }
    }
}

/// How the bits order the numbers: among values without a sign the greater bits
/// are the greater value, among values with one the lesser, and a value with a
/// sign is below one without, but for the two zeros, which are equal.
pub proof fn law_less(a: Double, b: Double)
    requires
        !a.not_a_number(),
        !b.not_a_number(),
    ensures
        a.bits < 0x8000_0000_0000_0000 && b.bits < 0x8000_0000_0000_0000 ==> (a.less(b) <==> a.bits < b.bits),
        a.bits >= 0x8000_0000_0000_0000 && b.bits >= 0x8000_0000_0000_0000 ==> (a.less(b) <==> a.bits > b.bits),
        a.bits >= 0x8000_0000_0000_0000 && b.bits < 0x8000_0000_0000_0000 ==> (a.less(b) <==> !(a.bits == 0x8000_0000_0000_0000 && b.bits == 0)),
        a.bits < 0x8000_0000_0000_0000 && b.bits >= 0x8000_0000_0000_0000 ==> !a.less(b),
        !(a.less(b) && b.less(a)),
        !a.less(b) && !b.less(a) <==> a == b || (a.magnitude() == 0 && b.magnitude() == 0),
{
}

/// What is not a number is neither below nor above anything: that is every
/// value whose bits, without the sign, lie above those of infinity.
pub proof fn law_not_a_number(a: Double, b: Double)
    ensures
        a.not_a_number() <==> (0x7ff0_0000_0000_0000 < a.bits < 0x8000_0000_0000_0000
            || a.bits > 0xfff0_0000_0000_0000),
        a.not_a_number() ==> !a.less(b) && !b.less(a),
{
}

} // verus!
