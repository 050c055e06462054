//! The exchange between two cores: which flag each side watches, what it waits
//! for and what it then writes; and how the moves are timed.

use crate::double;
use crate::double::{Arith, Double, Op};
use crate::timing;
use vstd::prelude::*;

verus! {

/// Which side of an exchange a core is on.
#[derive(Clone, Copy, Debug, PartialEq, Eq, Structural)]
pub enum Side {
    Ping,
    Pong,
}

/// Where the flags of an exchange are.
#[derive(Clone, Copy, Debug, PartialEq, Eq, Structural)]
pub enum Flags {
    /// One flag, which both sides compare and exchange.
    Shared,
    /// Two flags on lines of their own. Each side writes one and reads the
    /// other: the first is written by ping, the second by pong.
    Owned,
}

/// The other side.
pub open spec fn other(side: Side) -> Side {
    match side {
        Side::Ping => Side::Pong,
        Side::Pong => Side::Ping,
    }
}

/// One side of an exchange.
#[derive(Clone, Copy, Debug, PartialEq, Eq, Structural)]
pub struct Player {
    pub flags: Flags,
    pub side: Side,
    /// What the side waits for.
    pub awaited: bool,
}

impl Player {
    /// A side before its first move: ping waits for a set flag, pong for one
    /// that is not set.
    pub open spec fn fresh(flags: Flags, side: Side) -> Player {
        Player { flags, side, awaited: side is Ping }
    }

    /// The line of the flag that the side watches.
    pub open spec fn watched(self) -> int {
        if self.flags is Owned && self.side is Ping {
            1
        } else {
            0
        }
    }

    /// The line of the flag that the side writes.
    pub open spec fn marked(self) -> int {
        if self.flags is Owned && self.side is Pong {
            1
        } else {
            0
        }
    }

    /// What the side writes in a move.
    pub open spec fn written(self) -> bool {
        if self.flags is Owned && self.side is Ping {
            self.awaited
        } else {
            !self.awaited
        }
    }

    /// The side after a move: with flags of their own it waits for the opposite.
    pub open spec fn moved(self) -> Player {
        Player {
            awaited: if self.flags is Owned {
                !self.awaited
            } else {
                self.awaited
            },
            ..self
        }
    }

    /// A side before its first move.
    pub fn new(flags: Flags, side: Side) -> (r: Player)
        ensures
            r == Player::fresh(flags, side),
    {
        Player { flags, side, awaited: side == Side::Ping }
    }

    /// The line of the flag that the side watches.
    #[inline]
    pub fn watches(&self) -> (r: usize)
        ensures
            r == self.watched(),
    {
        if self.flags == Flags::Owned && self.side == Side::Ping {
            1
        } else {
            0
        }
    }

    /// The line of the flag that the side writes.
    #[inline]
    pub fn marks(&self) -> (r: usize)
        ensures
            r == self.marked(),
    {
        if self.flags == Flags::Owned && self.side == Side::Pong {
            1
        } else {
            0
        }
    }

    /// What the watched flag must hold for a move.
    #[inline]
    pub fn waits_for(&self) -> (r: bool)
        ensures
            r == self.awaited,
    {
        self.awaited
    }

    /// What the side writes in a move.
    #[inline]
    pub fn writes(&self) -> (r: bool)
        ensures
            r == self.written(),
    {
        if self.flags == Flags::Owned && self.side == Side::Ping {
            self.awaited
        } else {
            !self.awaited
        }
    }

    /// Notes that the side has made a move.
    #[inline]
    pub fn advance(&mut self)
        ensures
            *final(self) == old(self).moved(),
    {
        if self.flags == Flags::Owned {
            self.awaited = !self.awaited;
        }
    }
}

// ---------------------------------------------------------------------------
// The number of moves
// ---------------------------------------------------------------------------

/// Whether the samples with the warmup one can be counted.
pub open spec fn samples_fit(num_samples: u32) -> bool {
    num_samples < u32::MAX
}

/// Whether the moves of each side can be counted.
pub open spec fn moves_fit(num_round_trips: u32, num_samples: u32) -> bool {
    num_round_trips * num_samples <= u32::MAX
}

/// The samples to take, with the warmup one that comes first.
pub fn with_warmup(num_samples: u32) -> (r: u32)
    requires
        samples_fit(num_samples),
    ensures
        r == 1 + num_samples,
{
    1 + num_samples
}

/// The moves that each side makes.
pub fn moves(num_round_trips: u32, num_samples: u32) -> (r: u32)
    requires
        moves_fit(num_round_trips, num_samples),
    ensures
        r == num_round_trips * num_samples,
{
    num_round_trips * num_samples
}

/// Whether the moves of each side can be counted.
pub fn can_count_moves(num_round_trips: u32, num_samples: u32) -> (r: bool)
    ensures
        r == moves_fit(num_round_trips, num_samples),
{
    num_round_trips.checked_mul(num_samples).is_some()
}

// ---------------------------------------------------------------------------
// The course of a side
// ---------------------------------------------------------------------------

/// What a side does next.
#[derive(Clone, Copy, Debug, PartialEq, Eq, Structural)]
pub enum Act {
    /// Wait until the other side waits too.
    Meet,
    /// Read the clock before the moves of a sample.
    Start,
    /// Make so many moves.
    Move(u32),
    /// Read the clock after the moves of a sample, and keep the latency.
    Record,
    /// Nothing any more.
    Stop,
}

/// How far a side has come.
#[derive(Clone, Copy, Debug, PartialEq, Eq, Structural)]
pub enum Point {
    Ready,
    Starting,
    Moving,
    Recording,
    Finished,
}

/// What a side does, from the first sample to the last. Ping times the moves of
/// each sample; pong makes all of its moves at one go.
#[derive(Clone, Copy, Debug, PartialEq, Eq, Structural)]
pub struct Course {
    pub side: Side,
    pub num_round_trips: u32,
    pub num_samples: u32,
    /// The sample that the side is at.
    pub sample: u32,
    pub point: Point,
}

impl Course {
    /// Whether the side is at a sample that there is, and its moves can be counted.
    pub open spec fn well_formed(self) -> bool {
        &&& moves_fit(self.num_round_trips, self.num_samples)
        &&& match self.point {
            Point::Ready => self.sample == 0,
            Point::Starting | Point::Recording => self.side is Ping && self.sample
                < self.num_samples,
            Point::Moving => if self.side is Ping {
                self.sample < self.num_samples
            } else {
                self.sample == 0
            },
            Point::Finished => true,
        }
    }

    /// A side before the first sample.
    pub open spec fn fresh(side: Side, num_round_trips: u32, num_samples: u32) -> Course {
        Course { side, num_round_trips, num_samples, sample: 0, point: Point::Ready }
    }

    /// What the side does next.
    pub open spec fn due(self) -> Act {
        match self.point {
            Point::Ready => Act::Meet,
            Point::Starting => Act::Start,
            Point::Moving => if self.side is Ping {
                Act::Move(self.num_round_trips)
            } else {
                Act::Move((self.num_round_trips * self.num_samples) as u32)
            },
            Point::Recording => Act::Record,
            Point::Finished => Act::Stop,
        }
    }

    /// The side after what it was to do.
    pub open spec fn advanced(self) -> Course {
        match self.point {
            Point::Ready => Course {
                point: if self.side is Pong {
                    Point::Moving
                } else if self.num_samples == 0 {
                    Point::Finished
                } else {
                    Point::Starting
                },
                ..self
            },
            Point::Starting => Course { point: Point::Moving, ..self },
            Point::Moving => Course {
                point: if self.side is Pong {
                    Point::Finished
                } else {
                    Point::Recording
                },
                ..self
            },
            Point::Recording => if self.sample + 1 < self.num_samples {
                Course { sample: (self.sample + 1) as u32, point: Point::Starting, ..self }
            } else {
                Course { point: Point::Finished, ..self }
            },
            Point::Finished => self,
        }
    }

    /// The latencies that the side has kept.
    pub open spec fn kept(self) -> int {
        if self.point is Finished {
            self.num_samples as int
        } else {
            self.sample as int
        }
    }

    /// The moves that the side has made.
    pub open spec fn made(self) -> int {
        if self.point is Finished {
            self.num_round_trips * self.num_samples
        } else if self.point is Recording {
            self.num_round_trips * (self.sample + 1)
        } else {
            self.num_round_trips * self.sample
        }
    }

    /// A side before the first sample.
    pub fn new(side: Side, num_round_trips: u32, num_samples: u32) -> (r: Course)
        requires
            moves_fit(num_round_trips, num_samples),
        ensures
            r == Course::fresh(side, num_round_trips, num_samples),
            r.well_formed(),
    {
        Course { side, num_round_trips, num_samples, sample: 0, point: Point::Ready }
    }

    /// What the side does next.
    pub fn act(&self) -> (r: Act)
        requires
            self.well_formed(),
        ensures
            r == self.due(),
    {
        match self.point {
            Point::Ready => Act::Meet,
            Point::Starting => Act::Start,
            Point::Moving => if self.side == Side::Ping {
                Act::Move(self.num_round_trips)
            } else {
                Act::Move(moves(self.num_round_trips, self.num_samples))
            },
            Point::Recording => Act::Record,
            Point::Finished => Act::Stop,
        }
    }

    /// Notes that the side has done what it was to do.
    pub fn advance(&mut self)
        requires
            old(self).well_formed(),
        ensures
            *final(self) == old(self).advanced(),
            final(self).well_formed(),
    {
        match self.point {
            Point::Ready => {
                self.point = if self.side == Side::Pong {
                    Point::Moving
                } else if self.num_samples == 0 {
                    Point::Finished
                } else {
                    Point::Starting
                };
            },
            Point::Starting => {
                self.point = Point::Moving;
            },
            Point::Moving => {
                self.point = if self.side == Side::Pong {
                    Point::Finished
                } else {
                    Point::Recording
                };
            },
            Point::Recording => {
                if self.sample + 1 < self.num_samples {
                    self.sample = self.sample + 1;
                    self.point = Point::Starting;
                } else {
                    self.point = Point::Finished;
                }
            },
            Point::Finished => {},
        }
    }
}

/// The side that times the exchange, with the latencies that it has kept.
pub struct Timer {
    pub course: Course,
    pub latencies: Vec<Double>,
}

impl Timer {
    /// Whether there is a latency for each sample that is done.
    pub open spec fn well_formed(self) -> bool {
        &&& self.course.side is Ping
        &&& self.course.well_formed()
        &&& self.latencies@.len() == self.course.kept()
    }

    /// The timing side before the first sample.
    pub fn new(num_round_trips: u32, num_samples: u32) -> (r: Timer)
        requires
            moves_fit(num_round_trips, num_samples),
        ensures
            r.course == Course::fresh(Side::Ping, num_round_trips, num_samples),
            r.latencies@ == Seq::<Double>::empty(),
            r.well_formed(),
    {
        Timer {
            course: Course::new(Side::Ping, num_round_trips, num_samples),
            latencies: Vec::new(),
        }
    }

    /// What the side does next.
    pub fn act(&self) -> (r: Act)
        requires
            self.well_formed(),
        ensures
            r == self.course.due(),
    {
        self.course.act()
    }

    /// Notes that the side has done what it was to do, other than to keep a latency.
    pub fn advance(&mut self)
        requires
            old(self).well_formed(),
            !(old(self).course.due() is Record),
        ensures
            final(self).course == old(self).course.advanced(),
            final(self).latencies@ == old(self).latencies@,
            final(self).well_formed(),
    {
        self.course.advance();
    }

    /// Keeps the latency of a sample, from the time that its moves took.
    pub fn record<F: Fn(Op, &[Double]) -> Double>(&mut self, f: &F, nanos: u64)
        requires
            double::answers(*f),
            old(self).well_formed(),
            old(self).course.due() is Record,
        ensures
            final(self).course == old(self).course.advanced(),
            final(self).latencies@.len() == old(self).latencies@.len() + 1,
            final(self).latencies@.drop_last() == old(self).latencies@,
            forall|m: Arith| #[trigger]
                double::describes(m, *f) ==> final(self).latencies@.last() == timing::one_way(
                    m,
                    nanos,
                    old(self).course.num_round_trips,
                ),
            final(self).well_formed(),
    {
        let latency: Double = timing::one_way_latency(f, nanos, self.course.num_round_trips);
        let ghost before = self.latencies@;
        self.latencies.push(latency);
        self.course.advance();
        assert(self.latencies@.drop_last() =~= before);
    }

    /// The latencies of a side that has finished: one for each sample.
    pub fn into_latencies(self) -> (r: Vec<Double>)
        requires
            self.well_formed(),
            self.course.due() is Stop,
        ensures
            r@ == self.latencies@,
            r@.len() == self.course.num_samples,
    {
        self.latencies
    }
}

// ---------------------------------------------------------------------------
// Laws
// ---------------------------------------------------------------------------

/// How many things a side has left to do, at most.
pub open spec fn left(c: Course) -> int {
    let rest = 3 * (c.num_samples - c.sample);
    match c.point {
        Point::Ready => rest + 2,
        Point::Starting => rest,
        Point::Moving => if c.side is Ping {
            rest - 1
        } else {
            1
        },
        Point::Recording => rest - 2,
        Point::Finished => 0,
    }
}

/// A side makes just the moves that it is told to make and keeps a latency just
/// where it is told to; it comes to an end; and then it has made the moves of
/// all samples and kept a latency for each. Both sides make the same number.
pub proof fn law_course(c: Course)
    requires
        c.well_formed(),
    ensures
        c.advanced().made() == c.made() + (match c.due() {
            Act::Move(n) => n as int,
            _ => 0,
        }),
        c.side is Ping ==> c.advanced().kept() == c.kept() + (if c.due() is Record {
            1int
        } else {
            0int
        }),
        !(c.due() is Stop) ==> 0 <= left(c.advanced()) < left(c),
        c.due() is Stop ==> c.made() == c.num_round_trips * c.num_samples && c.kept()
            == c.num_samples,
        c.point is Ready ==> c.made() == 0 && c.kept() == 0,
{
    let t = c.num_round_trips as int;
    let s = c.sample as int;
    let n = c.num_samples as int;
    assert(t * (s + 1) == t * s + t) by (nonlinear_arith);
    assert(c.sample == 0 ==> t * s == 0) by (nonlinear_arith)
        requires
            s == c.sample,
    ;
    assert(n == 0 ==> t * n == 0) by (nonlinear_arith);
    if c.point is Recording && s + 1 >= n {
        assert(s + 1 == n);
    }
}

/// Flags that are not set, and two sides before their first move: the start of
/// an exchange, whatever the flags held before. So every run begins as the
/// first one did, however the one before it ended.
pub proof fn law_reset_starts_afresh(flags: Flags, before: Table)
    requires
        before.lines.len() == 2,
    ensures
        (Table {
            lines: before.lines.map_values(|b: bool| false),
            ping: Player::fresh(flags, Side::Ping),
            pong: Player::fresh(flags, Side::Pong),
            pings: 0,
            pongs: 0,
        }) == start(flags),
{
    assert(before.lines.map_values(|b: bool| false) =~= start(flags).lines);
}

/// Two sides with their flags.
pub struct Table {
    /// The flags: all of them, though a shared flag is on the first line.
    pub lines: Seq<bool>,
    pub ping: Player,
    pub pong: Player,
    /// The moves that ping has made.
    pub pings: nat,
    /// The moves that pong has made.
    pub pongs: nat,
}

impl Table {
    /// A side of the table.
    pub open spec fn player(self, side: Side) -> Player {
        match side {
            Side::Ping => self.ping,
            Side::Pong => self.pong,
        }
    }

    /// The moves that a side has made.
    pub open spec fn made(self, side: Side) -> nat {
        match side {
            Side::Ping => self.pings,
            Side::Pong => self.pongs,
        }
    }

    /// Whether a side can move: its flag holds what it waits for.
    pub open spec fn can_move(self, side: Side) -> bool {
        self.lines[self.player(side).watched()] == self.player(side).awaited
    }

    /// The table after a move of a side.
    pub open spec fn after(self, side: Side) -> Table {
        let p = self.player(side);
        let lines = self.lines.update(p.marked(), p.written());
        match side {
            Side::Ping => Table { lines, ping: p.moved(), pings: self.pings + 1, ..self },
            Side::Pong => Table { lines, pong: p.moved(), pongs: self.pongs + 1, ..self },
        }
    }
}

/// The table at the start: no flag is set.
pub open spec fn start(flags: Flags) -> Table {
    Table {
        lines: seq![false, false],
        ping: Player::fresh(flags, Side::Ping),
        pong: Player::fresh(flags, Side::Pong),
        pings: 0,
        pongs: 0,
    }
}

/// Whether the moves can be made from the start, one after the other.
pub open spec fn playable(flags: Flags, moves: Seq<Side>) -> bool
    decreases moves.len(),
{
    moves.len() == 0 || (playable(flags, moves.drop_last()) && played(
        flags,
        moves.drop_last(),
    ).can_move(moves.last()))
}

/// The table after the moves.
pub open spec fn played(flags: Flags, moves: Seq<Side>) -> Table
    decreases moves.len(),
{
    if moves.len() == 0 {
        start(flags)
    } else {
        played(flags, moves.drop_last()).after(moves.last())
    }
}

/// Which side is to move after so many moves: pong begins.
pub open spec fn turn(n: int) -> Side {
    if n % 2 == 0 {
        Side::Pong
    } else {
        Side::Ping
    }
}

/// The table after so many moves, where the sides have taken turns.
pub open spec fn expected(flags: Flags, n: nat) -> Table {
    let ping_phase = (n / 2) % 2 == 0;
    let pong_phase = ((n + 1) / 2) % 2 == 0;
    Table {
        lines: if flags is Shared {
            seq![n % 2 == 1, false]
        } else {
            seq![!ping_phase, !pong_phase]
        },
        ping: Player {
            flags,
            side: Side::Ping,
            awaited: if flags is Shared {
                true
            } else {
                ping_phase
            },
        },
        pong: Player {
            flags,
            side: Side::Pong,
            awaited: if flags is Shared {
                false
            } else {
                !pong_phase
            },
        },
        pings: n / 2,
        pongs: (n + 1) / 2,
    }
}

/// The sides take turns: whatever moves have been made, they were pong's and
/// ping's alternately, pong's first; and the side whose turn it is can move,
/// while the other cannot.
pub proof fn law_sides_take_turns(flags: Flags, moves: Seq<Side>)
    requires
        playable(flags, moves),
    ensures
        forall|i: int| 0 <= i < moves.len() ==> #[trigger] moves[i] == turn(i),
        played(flags, moves) == expected(flags, moves.len()),
        played(flags, moves).can_move(turn(moves.len() as int)),
        !played(flags, moves).can_move(other(turn(moves.len() as int))),
    decreases moves.len(),
{
    if moves.len() == 0 {
        assert(start(flags).lines =~= expected(flags, 0).lines);
    } else {
        let before = moves.drop_last();
        law_sides_take_turns(flags, before);
        let n = before.len();
        assert(moves.last() == turn(n as int));
        assert forall|i: int| 0 <= i < moves.len() implies #[trigger] moves[i] == turn(i) by {
            if i < n {
                assert(moves[i] == before[i]);
            }
        }
        assert(played(flags, moves).lines =~= expected(flags, n + 1).lines);
        assert(played(flags, moves) == expected(flags, n + 1));
    }
}

/// An exchange never gets stuck and ends: until both sides have made their
/// moves, a side that has not made all of its own can move; and neither ever
/// makes more than one move more than the other.
pub proof fn law_exchange_ends(flags: Flags, moves: Seq<Side>, quota: nat)
    requires
        playable(flags, moves),
        moves.len() < 2 * quota,
    ensures
        played(flags, moves).can_move(turn(moves.len() as int)),
        played(flags, moves).made(turn(moves.len() as int)) < quota,
        played(flags, moves).pings <= played(flags, moves).pongs <= played(flags, moves).pings + 1,
        played(flags, moves).pings + played(flags, moves).pongs == moves.len(),
{
    law_sides_take_turns(flags, moves);
}

/// When both sides have made the same number of moves and a shared flag was
/// exchanged, it is as it was at the start.
pub proof fn law_shared_flag_returns(moves: Seq<Side>)
    requires
        playable(Flags::Shared, moves),
        played(Flags::Shared, moves).pings == played(Flags::Shared, moves).pongs,
    ensures
        played(Flags::Shared, moves).lines == start(Flags::Shared).lines,
{
    law_sides_take_turns(Flags::Shared, moves);
    assert(played(Flags::Shared, moves).lines =~= start(Flags::Shared).lines);
}

/// The order of what a side does. Ping reads the clock, makes the moves of one
/// sample, and keeps the latency, sample after sample; pong makes all of its
/// moves at one go. Both meet the other side first.
pub proof fn law_order_of_acts(c: Course)
    requires
        c.well_formed(),
    ensures
        c == Course::fresh(c.side, c.num_round_trips, c.num_samples) ==> c.due() is Meet,
        c.side is Ping ==> match c.due() {
            Act::Meet => c.advanced().due() == (if c.num_samples > 0 {
                Act::Start
            } else {
                Act::Stop
            }),
            Act::Start => c.advanced().due() == Act::Move(c.num_round_trips),
            Act::Move(n) => n == c.num_round_trips && c.advanced().due() is Record,
            Act::Record => c.advanced().due() == (if c.kept() + 1 < c.num_samples {
                Act::Start
            } else {
                Act::Stop
            }),
            Act::Stop => c.advanced().due() is Stop,
        },
        c.side is Pong ==> match c.due() {
            Act::Meet => c.advanced().due() is Move,
            Act::Move(n) => n == c.num_round_trips * c.num_samples && c.advanced().due() is Stop,
            Act::Stop => c.advanced().due() is Stop,
            _ => false,
        },
        c.advanced().side == c.side,
        c.advanced().num_round_trips == c.num_round_trips,
        c.advanced().num_samples == c.num_samples,
{
}

/// What a side watches is what the other side writes, on one line with a shared
/// flag and on lines of their own else. Before the first move a flag that is
/// not set lets pong move and makes ping wait.
pub proof fn law_flags(flags: Flags, side: Side, p: Player, q: Player)
    requires
        p.flags == flags && q.flags == flags,
        p.side == side && q.side == other(side),
    ensures
        p.watched() == q.marked(),
        flags is Shared ==> p.watched() == p.marked() && p.written() != p.awaited,
        flags is Owned ==> p.watched() != p.marked() && p.moved().awaited != p.awaited,
        flags is Shared ==> p.moved() == p,
        Player::fresh(flags, Side::Ping).awaited,
        !Player::fresh(flags, Side::Pong).awaited,
        p.moved().side == p.side && p.moved().flags == p.flags,
{
}

/// A side begins at the first sample, with nothing done.
pub proof fn law_course_begins(side: Side, num_round_trips: u32, num_samples: u32)
    requires
        num_round_trips * num_samples <= u32::MAX,
    ensures
        ({
            let c = Course::fresh(side, num_round_trips, num_samples);
            &&& c.well_formed()
            &&& c.due() is Meet
            &&& c.made() == 0
            &&& c.kept() == 0
            &&& c.side == side
            &&& c.num_round_trips == num_round_trips
            &&& c.num_samples == num_samples
        }),
{
    law_course(Course::fresh(side, num_round_trips, num_samples));
}

} // verus!
