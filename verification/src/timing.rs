//! From clock readings to latencies.

use crate::double;
use crate::double::{Arith, Double, Op};
use std::sync::atomic::{AtomicU64, Ordering};
use vstd::prelude::*;

verus! {

/// The latency of one way of a round trip.
pub open spec fn one_way(m: Arith, nanos: u64, num_round_trips: u32) -> Double {
    m(
        Op::Quotient,
        seq![
            m(
                Op::Quotient,
                seq![m(Op::Count(nanos), seq![]), m(Op::Count(num_round_trips as u64), seq![])],
            ),
            Double { bits: double::TWO },
        ],
    )
}

/// The difference of two readings; 0 where it would be negative.
pub open spec fn since(later: u64, earlier: u64) -> u64 {
    if later > earlier {
        (later - earlier) as u64
    } else {
        0
    }
}

/// What a sender leaves for the receiver: the time since the start, but never
/// the 0 that stands for nothing.
pub open spec fn stamped(now: u64, start: u64) -> u64 {
    if since(now, start) == 0 {
        1
    } else {
        since(now, start)
    }
}

/// The time that a message took.
pub open spec fn taken(now: u64, start: u64, sent: u64) -> u64 {
    since(since(now, start), sent)
}

/// The latency of one message: the time for all, without that for reading the
/// clock, shared among them.
pub open spec fn per_message(m: Arith, nanos: u64, overhead: u64, num_iterations: u32) -> Double {
    m(
        Op::Quotient,
        seq![
            m(Op::Count(since(nanos, overhead)), seq![]),
            m(Op::Count(num_iterations as u64), seq![]),
        ],
    )
}

/// The latency of one way, from the time that the round trips took.
pub fn one_way_latency<F: Fn(Op, &[Double]) -> Double>(
    f: &F,
    nanos: u64,
    num_round_trips: u32,
) -> (r: Double)
    requires
        double::answers(*f),
    ensures
        forall|m: Arith| #[trigger]
            double::describes(m, *f) ==> r == one_way(m, nanos, num_round_trips),
{
    let total: Double = double::count(f, nanos);
    let trips: Double = double::count(f, num_round_trips as u64);
    let trip: Double = double::apply(f, Op::Quotient, total, trips);
    double::apply(f, Op::Quotient, trip, Double { bits: double::TWO })
}

/// The latency of one message, from the time that all took and the time for
/// reading the clock as often.
pub fn message_latency<F: Fn(Op, &[Double]) -> Double>(
    f: &F,
    nanos: u64,
    overhead: u64,
    num_iterations: u32,
) -> (r: Double)
    requires
        double::answers(*f),
    ensures
        forall|m: Arith| #[trigger]
            double::describes(m, *f) ==> r == per_message(m, nanos, overhead, num_iterations),
{
    let total: Double = double::count(f, nanos.saturating_sub(overhead));
    let messages: Double = double::count(f, num_iterations as u64);
    double::apply(f, Op::Quotient, total, messages)
}

/// What a sender leaves for the receiver.
#[inline]
pub fn stamp(now: u64, start: u64) -> (r: u64)
    ensures
        r == stamped(now, start),
        r != 0,
{
    let elapsed: u64 = now.saturating_sub(start);
    if elapsed == 0 {
        1
    } else {
        elapsed
    }
}

/// The time that a message took, from its stamp.
#[inline]
pub fn lag(now: u64, start: u64, sent: u64) -> (r: u64)
    ensures
        r == taken(now, start, sent),
{
    now.saturating_sub(start).saturating_sub(sent)
}

/// What a receiver finds in a slot: nothing where it holds 0, else a stamp.
pub open spec fn found(value: u64) -> Option<u64> {
    if value == 0 {
        None
    } else {
        Some(value)
    }
}

/// What a receiver finds in a slot that holds `value`.
#[inline]
pub fn non_zero(value: u64) -> (r: Option<u64>)
    ensures
        r == found(value),
{
    if value == 0 {
        None
    } else {
        Some(value)
    }
}

/// Loads a slot once, and gives what is found there. What the slot holds is up
/// to the other core.
#[inline]
pub fn look(slot: &AtomicU64, ordering: Ordering) -> (r: Option<u64>)
    requires
        !(ordering is Release) && !(ordering is AcqRel),
    ensures
        exists|v: u64| #[trigger]
            call_ensures(AtomicU64::load, (slot, ordering), v) && r == found(v),
{
    let value: u64 = slot.load(ordering);
    non_zero(value)
}

/// A receiver finds exactly the stamp that a sender has left: a slot with a
/// stamp is never taken for an empty one.
pub proof fn law_stamp_found(now: u64, start: u64)
    ensures
        found(stamped(now, start)) == Some(stamped(now, start)),
        found(0) is None,
{
}

/// A message takes the time between its stamp and its receipt, whenever it is
/// sent after the start and received after it was sent.
pub proof fn law_lag_is_time_between(start: u64, sent_at: u64, received_at: u64)
    requires
        start < sent_at <= received_at,
    ensures
        taken(received_at, start, stamped(sent_at, start)) == received_at - sent_at,
{
}

/// No message takes more than the time since the start, whatever the clocks say.
pub proof fn law_lag_bounded(start: u64, sent_at: u64, received_at: u64)
    ensures
        taken(received_at, start, stamped(sent_at, start)) <= since(received_at, start),
{
}

/// Whether a double is a number at or above 0, and not infinite.
pub open spec fn finite(x: Double) -> bool {
    x.rank() >= 0 && x.magnitude() < double::INFINITY
}

/// Whether counts are finite, at least 1 from 1 on, and a finite value divided
/// by one of at least 1 is finite. That is so of IEEE 754 doubles.
pub open spec fn keeps_finite(m: Arith) -> bool {
    &&& forall|n: u64| finite(#[trigger] m(Op::Count(n), seq![]))
    &&& forall|n: u64|
        n >= 1 ==> (#[trigger] m(Op::Count(n), seq![])).rank() >= double::ONE
    &&& forall|v: Seq<Double>|
        v.len() == 2 && finite(v[0]) && finite(v[1]) && v[1].rank() >= double::ONE ==> finite(
            #[trigger] m(Op::Quotient, v),
        )
}

/// Latencies are numbers, not negative and not infinite, whatever the clock
/// says, where there is a round trip or a message and the arithmetic keeps to
/// finite values.
pub proof fn law_latency_finite(m: Arith, nanos: u64, overhead: u64, n: u32)
    requires
        n >= 1,
        keeps_finite(m),
    ensures
        finite(one_way(m, nanos, n)),
        finite(per_message(m, nanos, overhead, n)),
        !one_way(m, nanos, n).not_a_number(),
        !per_message(m, nanos, overhead, n).not_a_number(),
{
    let total = m(Op::Count(nanos), seq![]);
    let trips = m(Op::Count(n as u64), seq![]);
    let two = Double { bits: double::TWO };
    assert(finite(total) && finite(trips) && trips.rank() >= double::ONE);
    assert(finite(m(Op::Quotient, seq![total, trips])));
    assert(finite(two) && two.rank() >= double::ONE);
    let kept = m(Op::Count(since(nanos, overhead)), seq![]);
    assert(finite(m(Op::Quotient, seq![kept, trips])));
}

/// How latencies come of clock readings: one way is the time divided by the
/// round trips and then by 2; a message is the time that is left without the
/// clock's, divided by the messages.
pub proof fn law_latencies(m: Arith, nanos: u64, overhead: u64, n: u32)
    ensures
        one_way(m, nanos, n) == m(
            Op::Quotient,
            seq![
                m(
                    Op::Quotient,
                    seq![m(Op::Count(nanos), seq![]), m(Op::Count(n as u64), seq![])],
                ),
                Double { bits: 0x4000_0000_0000_0000 },
            ],
        ),
        nanos >= overhead ==> per_message(m, nanos, overhead, n) == m(
            Op::Quotient,
            seq![
                m(Op::Count((nanos - overhead) as u64), seq![]),
                m(Op::Count(n as u64), seq![]),
            ],
        ),
        nanos < overhead ==> per_message(m, nanos, overhead, n) == m(
            Op::Quotient,
            seq![m(Op::Count(0), seq![]), m(Op::Count(n as u64), seq![])],
        ),
{
}

/// A stamp is the time since the start, and 1 where none has passed; a clock
/// that runs behind gives no time.
pub proof fn law_clock(start: u64, now: u64, sent: u64)
    ensures
        now > start ==> stamped(now, start) == now - start,
        now <= start ==> stamped(now, start) == 1,
        now <= start ==> taken(now, start, sent) == 0,
        now > start && now - start <= sent ==> taken(now, start, sent) == 0,
        now > start && now - start > sent ==> taken(now, start, sent) == now - start - sent,
{
}

} // verus!
