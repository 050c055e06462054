//! The passing of messages between two cores: what the sender and the receiver
//! do, one after the other, and where they wait for each other.
//!
//! A message is a stamp in a slot. In every sample each slot gets one message,
//! and the slots are emptied before the next sample begins.

use crate::double;
use crate::double::{Arith, Double, Op};
use crate::timing;
use vstd::prelude::*;

verus! {

/// Which end of the messages a core is on.
#[derive(Clone, Copy, Debug, PartialEq, Eq, Structural)]
pub enum Role {
    Receiver,
    Sender,
}

/// How far a core has come.
#[derive(Clone, Copy, Debug, PartialEq, Eq, Structural)]
pub enum Phase {
    /// Before the first sample.
    Ready,
    /// Before the messages of a sample.
    Opening,
    /// At the message in a slot.
    Slot(usize),
    /// After the messages of a sample.
    Closing,
    /// At the result of a sample; the receiver only.
    Result,
    /// At the emptying of a slot; the sender only.
    Emptying(usize),
    /// After the last sample.
    Finished,
}

/// What a core does next.
#[derive(Clone, Copy, Debug, PartialEq, Eq, Structural)]
pub enum Task {
    /// Wait until the other core waits too.
    Meet,
    /// Wait for the message in a slot.
    Take(usize),
    /// Keep the latency of the messages of the sample.
    Record,
    /// Leave a message in a slot.
    Send(usize),
    /// Empty a slot.
    Empty(usize),
    /// Nothing any more.
    Stop,
}

/// What a core does, from the first sample to the last.
#[derive(Clone, Copy, Debug, PartialEq, Eq, Structural)]
pub struct Script {
    pub role: Role,
    /// The number of slots.
    pub slots: usize,
    /// The number of samples.
    pub samples: u32,
    /// The sample that the core is at.
    pub sample: u32,
    pub phase: Phase,
}

impl Script {
    /// Whether the core is at a slot and at a sample that there are.
    pub open spec fn well_formed(self) -> bool {
        match self.phase {
            Phase::Ready => self.sample == 0,
            Phase::Opening | Phase::Closing => self.sample < self.samples,
            Phase::Slot(i) => self.sample < self.samples && i < self.slots,
            Phase::Result => self.sample < self.samples && self.role is Receiver,
            Phase::Emptying(i) => self.sample < self.samples && i < self.slots
                && self.role is Sender,
            Phase::Finished => true,
        }
    }

    /// A core before the first sample.
    pub open spec fn fresh(role: Role, slots: usize, samples: u32) -> Script {
        Script { role, slots, samples, sample: 0, phase: Phase::Ready }
    }

    /// What the core does next.
    pub open spec fn due(self) -> Task {
        match self.phase {
            Phase::Ready | Phase::Opening | Phase::Closing => Task::Meet,
            Phase::Slot(i) => if self.role is Receiver {
                Task::Take(i)
            } else {
                Task::Send(i)
            },
            Phase::Result => Task::Record,
            Phase::Emptying(i) => Task::Empty(i),
            Phase::Finished => Task::Stop,
        }
    }

    /// The core after all of a sample.
    pub open spec fn sampled(self) -> Script {
        if self.sample + 1 < self.samples {
            Script { sample: (self.sample + 1) as u32, phase: Phase::Opening, ..self }
        } else {
            Script { phase: Phase::Finished, ..self }
        }
    }

    /// The core after what it was to do.
    pub open spec fn advanced(self) -> Script {
        match self.phase {
            Phase::Ready => Script {
                phase: if self.samples == 0 {
                    Phase::Finished
                } else {
                    Phase::Opening
                },
                ..self
            },
            Phase::Opening => Script {
                phase: if self.slots == 0 {
                    Phase::Closing
                } else {
                    Phase::Slot(0)
                },
                ..self
            },
            Phase::Slot(i) => Script {
                phase: if i + 1 < self.slots {
                    Phase::Slot((i + 1) as usize)
                } else {
                    Phase::Closing
                },
                ..self
            },
            Phase::Closing => if self.role is Receiver {
                Script { phase: Phase::Result, ..self }
            } else if self.slots == 0 {
                self.sampled()
            } else {
                Script { phase: Phase::Emptying(0), ..self }
            },
            Phase::Result => self.sampled(),
            Phase::Emptying(i) => if i + 1 < self.slots {
                Script { phase: Phase::Emptying((i + 1) as usize), ..self }
            } else {
                self.sampled()
            },
            Phase::Finished => self,
        }
    }

    /// A core before the first sample.
    pub fn new(role: Role, slots: usize, samples: u32) -> (r: Script)
        ensures
            r == Script::fresh(role, slots, samples),
            r.well_formed(),
    {
        Script { role, slots, samples, sample: 0, phase: Phase::Ready }
    }

    /// What the core does next.
    pub fn task(&self) -> (r: Task)
        ensures
            r == self.due(),
    {
        match self.phase {
            Phase::Ready => Task::Meet,
            Phase::Opening => Task::Meet,
            Phase::Closing => Task::Meet,
            Phase::Slot(i) => if self.role == Role::Receiver {
                Task::Take(i)
            } else {
                Task::Send(i)
            },
            Phase::Result => Task::Record,
            Phase::Emptying(i) => Task::Empty(i),
            Phase::Finished => Task::Stop,
        }
    }

    /// Goes on to the next sample.
    fn end_sample(&mut self)
        requires
            old(self).sample < old(self).samples,
        ensures
            *final(self) == old(self).sampled(),
    {
        if self.sample + 1 < self.samples {
            self.sample = self.sample + 1;
            self.phase = Phase::Opening;
        } else {
            self.phase = Phase::Finished;
        }
    }

    /// Notes that the core has done what it was to do.
    pub fn advance(&mut self)
        requires
            old(self).well_formed(),
        ensures
            *final(self) == old(self).advanced(),
            final(self).well_formed(),
    {
        match self.phase {
            Phase::Ready => {
                self.phase = if self.samples == 0 {
                    Phase::Finished
                } else {
                    Phase::Opening
                };
            },
            Phase::Opening => {
                self.phase = if self.slots == 0 {
                    Phase::Closing
                } else {
                    Phase::Slot(0)
                };
            },
            Phase::Slot(i) => {
                self.phase = if i + 1 < self.slots {
                    Phase::Slot(i + 1)
                } else {
                    Phase::Closing
                };
            },
            Phase::Closing => {
                if self.role == Role::Receiver {
                    self.phase = Phase::Result;
                } else if self.slots == 0 {
                    self.end_sample();
                } else {
                    self.phase = Phase::Emptying(0);
                }
            },
            Phase::Result => {
                self.end_sample();
            },
            Phase::Emptying(i) => {
                if i + 1 < self.slots {
                    self.phase = Phase::Emptying(i + 1);
                } else {
                    self.end_sample();
                }
            },
            Phase::Finished => {},
        }
    }
}

// ---------------------------------------------------------------------------
// The receiver
// ---------------------------------------------------------------------------

/// How many results a receiver has recorded.
pub open spec fn recorded(s: Script) -> int {
    if s.phase is Finished {
        s.samples as int
    } else {
        s.sample as int
    }
}

/// How many messages a receiver has taken from a slot.
pub open spec fn taken(s: Script, i: usize) -> int {
    match s.phase {
        Phase::Slot(j) => if i < j {
            s.sample + 1
        } else {
            s.sample as int
        },
        Phase::Closing | Phase::Result => s.sample + 1,
        _ => recorded(s),
    }
}

/// A receiver, with the time that the messages of its sample took so far, and
/// the latencies that it has recorded.
pub struct Receiver {
    pub script: Script,
    pub total: u64,
    pub latencies: Vec<Double>,
}

impl Receiver {
    /// Whether there is a latency for each sample that is done.
    pub open spec fn well_formed(self) -> bool {
        &&& self.script.role is Receiver
        &&& self.script.well_formed()
        &&& self.latencies@.len() == recorded(self.script)
    }

    /// A receiver before the first sample.
    pub fn new(slots: usize, samples: u32) -> (r: Receiver)
        ensures
            r.script == Script::fresh(Role::Receiver, slots, samples),
            r.total == 0,
            r.latencies@ == Seq::<Double>::empty(),
            r.well_formed(),
    {
        Receiver {
            script: Script::new(Role::Receiver, slots, samples),
            total: 0,
            latencies: Vec::new(),
        }
    }

    /// What the receiver does next.
    pub fn task(&self) -> (r: Task)
        ensures
            r == self.script.due(),
    {
        self.script.task()
    }

    /// Notes that the receiver has met the sender.
    pub fn met(&mut self)
        requires
            old(self).well_formed(),
            old(self).script.due() is Meet,
        ensures
            final(self).script == old(self).script.advanced(),
            final(self).total == old(self).total,
            final(self).latencies@ == old(self).latencies@,
            final(self).well_formed(),
    {
        self.script.advance();
    }

    /// Whether the time that one more message took can be added.
    pub fn has_room(&self, lag: u64) -> (r: bool)
        ensures
            r == (self.total + lag <= u64::MAX),
    {
        self.total <= u64::MAX - lag
    }

    /// Adds the time that a message took.
    pub fn take(&mut self, lag: u64)
        requires
            old(self).well_formed(),
            old(self).script.due() is Take,
            old(self).total + lag <= u64::MAX,
        ensures
            final(self).script == old(self).script.advanced(),
            final(self).total == old(self).total + lag,
            final(self).latencies@ == old(self).latencies@,
            final(self).well_formed(),
    {
        self.total = self.total + lag;
        self.script.advance();
    }

    /// Records the latency of a sample, from the nanoseconds that its messages
    /// took and those for reading the clock as often; the next sample adds up
    /// from 0.
    pub fn record<F: Fn(Op, &[Double]) -> Double>(
        &mut self,
        f: &F,
        nanos: u64,
        overhead: u64,
        num_iterations: u32,
    )
        requires
            double::answers(*f),
            old(self).well_formed(),
            old(self).script.due() is Record,
        ensures
            final(self).script == old(self).script.advanced(),
            final(self).total == 0,
            final(self).latencies@.len() == old(self).latencies@.len() + 1,
            final(self).latencies@.drop_last() == old(self).latencies@,
            forall|m: Arith| #[trigger]
                double::describes(m, *f) ==> final(self).latencies@.last() == timing::per_message(
                    m,
                    nanos,
                    overhead,
                    num_iterations,
                ),
            final(self).well_formed(),
    {
        let latency: Double = timing::message_latency(f, nanos, overhead, num_iterations);
        let ghost before = self.latencies@;
        self.latencies.push(latency);
        self.total = 0;
        self.script.advance();
        assert(self.latencies@.drop_last() =~= before);
    }

    /// The latencies of a receiver that has finished: one for each sample.
    pub fn into_latencies(self) -> (r: Vec<Double>)
        requires
            self.well_formed(),
            self.script.due() is Stop,
        ensures
            r@ == self.latencies@,
            r@.len() == self.script.samples,
    {
        self.latencies
    }
}

// ---------------------------------------------------------------------------
// Both cores with their slots
// ---------------------------------------------------------------------------

/// Both cores with their slots.
pub struct Traffic {
    /// The slots: empty, or with the sample that their message belongs to.
    pub slots: Seq<Option<u32>>,
    pub receiver: Script,
    pub sender: Script,
}

/// What happens next.
pub enum Move {
    /// Both cores meet.
    Both,
    /// The receiver does what it is to do.
    Receives,
    /// The sender does what it is to do.
    Sends,
}

impl Traffic {
    /// Whether that can happen: the cores meet where both wait to, and a
    /// message is taken where there is one.
    pub open spec fn allows(self, m: Move) -> bool {
        match m {
            Move::Both => self.receiver.due() is Meet && self.sender.due() is Meet,
            Move::Receives => match self.receiver.due() {
                Task::Take(i) => self.slots[i as int] is Some,
                Task::Record => true,
                _ => false,
            },
            Move::Sends => self.sender.due() is Send || self.sender.due() is Empty,
        }
    }

    /// What is there after it has happened.
    pub open spec fn after(self, m: Move) -> Traffic {
        match m {
            Move::Both => Traffic {
                receiver: self.receiver.advanced(),
                sender: self.sender.advanced(),
                ..self
            },
            Move::Receives => Traffic { receiver: self.receiver.advanced(), ..self },
            Move::Sends => Traffic {
                slots: match self.sender.due() {
                    Task::Send(i) => self.slots.update(i as int, Some(self.sender.sample)),
                    Task::Empty(i) => self.slots.update(i as int, None),
                    _ => self.slots,
                },
                sender: self.sender.advanced(),
                ..self
            },
        }
    }

    /// Whether both cores are finished.
    pub open spec fn finished(self) -> bool {
        self.receiver.phase is Finished && self.sender.phase is Finished
    }
}

/// Both cores before the first sample, with empty slots.
pub open spec fn begun(slots: usize, samples: u32) -> Traffic {
    Traffic {
        slots: Seq::new(slots as nat, |i: int| None),
        receiver: Script::fresh(Role::Receiver, slots, samples),
        sender: Script::fresh(Role::Sender, slots, samples),
    }
}

/// What is there after all that has happened.
pub open spec fn reached(slots: usize, samples: u32, moves: Seq<Move>) -> Traffic
    decreases moves.len(),
{
    if moves.len() == 0 {
        begun(slots, samples)
    } else {
        reached(slots, samples, moves.drop_last()).after(moves.last())
    }
}

/// Whether all of that can happen, one after the other.
pub open spec fn possible(slots: usize, samples: u32, moves: Seq<Move>) -> bool
    decreases moves.len(),
{
    moves.len() == 0 || (possible(slots, samples, moves.drop_last()) && reached(
        slots,
        samples,
        moves.drop_last(),
    ).allows(moves.last()))
}

// ---------------------------------------------------------------------------
// Laws
// ---------------------------------------------------------------------------

/// How often a core has met the other.
pub open spec fn meetings(s: Script) -> int {
    match s.phase {
        Phase::Ready => 0,
        Phase::Opening => 1 + 2 * s.sample,
        Phase::Slot(_) | Phase::Closing => 2 + 2 * s.sample,
        Phase::Result | Phase::Emptying(_) => 3 + 2 * s.sample,
        Phase::Finished => 1 + 2 * s.samples,
    }
}

/// What a slot holds, by how far the sender has come.
pub open spec fn held(sender: Script, i: int) -> Option<u32> {
    match sender.phase {
        Phase::Slot(j) => if i < j {
            Some(sender.sample)
        } else {
            None
        },
        Phase::Closing => Some(sender.sample),
        Phase::Emptying(j) => if i < j {
            None
        } else {
            Some(sender.sample)
        },
        _ => None,
    }
}

/// What always holds of both cores: they have met equally often, the receiver
/// is not ahead of the sender, and the slots hold what the sender has left.
pub open spec fn in_step(e: Traffic, slots: usize, samples: u32) -> bool {
    &&& e.receiver.well_formed() && e.receiver.role is Receiver
    &&& e.sender.well_formed() && e.sender.role is Sender
    &&& e.receiver.slots == slots && e.receiver.samples == samples
    &&& e.sender.slots == slots && e.sender.samples == samples
    &&& meetings(e.receiver) == meetings(e.sender)
    &&& e.sender.phase matches Phase::Slot(j) ==> (e.receiver.phase matches Phase::Slot(i) && i <= j)
    &&& e.slots.len() == slots
    &&& forall|i: int| 0 <= i < slots ==> #[trigger] e.slots[i] == held(e.sender, i)
}

/// What always holds is kept by all that can happen.
proof fn lemma_kept(e: Traffic, m: Move, slots: usize, samples: u32)
    requires
        in_step(e, slots, samples),
        e.allows(m),
    ensures
        in_step(e.after(m), slots, samples),
{
    let a = e.after(m);
    assert(a.receiver.well_formed());
    assert(a.sender.well_formed());
    assert(meetings(a.receiver) == meetings(a.sender));
    assert forall|i: int| 0 <= i < slots implies #[trigger] a.slots[i] == held(a.sender, i) by {
        assert(e.slots[i] == held(e.sender, i));
    }
}

/// Whatever happens, the cores stay in step.
pub proof fn law_in_step(slots: usize, samples: u32, moves: Seq<Move>)
    requires
        possible(slots, samples, moves),
    ensures
        in_step(reached(slots, samples, moves), slots, samples),
    decreases moves.len(),
{
    if moves.len() > 0 {
        law_in_step(slots, samples, moves.drop_last());
        lemma_kept(reached(slots, samples, moves.drop_last()), moves.last(), slots, samples);
    }
}

/// A message is taken in the sample that it was sent in: whatever has
/// happened, where the receiver waits for a message and the slot is not empty,
/// the message there is one of the receiver's own sample.
pub proof fn law_message_of_the_sample(slots: usize, samples: u32, moves: Seq<Move>, i: usize)
    requires
        possible(slots, samples, moves),
        reached(slots, samples, moves).receiver.due() == Task::Take(i),
    ensures
        i < slots,
        reached(slots, samples, moves).slots[i as int] is Some ==> reached(
            slots,
            samples,
            moves,
        ).slots[i as int] == Some(reached(slots, samples, moves).receiver.sample),
{
    law_in_step(slots, samples, moves);
    let e = reached(slots, samples, moves);
    assert(e.slots[i as int] == held(e.sender, i as int));
}

/// The sender leaves a message in an empty slot only, and empties slots only
/// while the receiver waits for no message.
pub proof fn law_no_message_lost(slots: usize, samples: u32, moves: Seq<Move>, i: usize)
    requires
        possible(slots, samples, moves),
    ensures
        reached(slots, samples, moves).sender.due() == Task::Send(i) ==> reached(
            slots,
            samples,
            moves,
        ).slots[i as int] is None,
        reached(slots, samples, moves).sender.due() == Task::Empty(i) ==> !(reached(
            slots,
            samples,
            moves,
        ).receiver.due() is Take),
{
    law_in_step(slots, samples, moves);
    let e = reached(slots, samples, moves);
    if e.sender.due() == Task::Send(i) {
        assert(e.slots[i as int] == held(e.sender, i as int));
    }
}

/// How many things a core has left to do, at most.
pub open spec fn left(s: Script) -> int {
    let all = 2 * s.slots + 4;
    let rest = (s.samples - s.sample) * all;
    match s.phase {
        Phase::Ready => rest + 1,
        Phase::Opening => rest,
        Phase::Slot(i) => rest - 1 - i,
        Phase::Closing => rest - 1 - s.slots,
        Phase::Result => rest - 2 - s.slots,
        Phase::Emptying(i) => rest - 2 - s.slots - i,
        Phase::Finished => 0,
    }
}

proof fn lemma_left(s: Script)
    requires
        s.well_formed(),
        !(s.phase is Finished),
    ensures
        0 <= left(s.advanced()) < left(s),
{
    let all = 2 * s.slots + 4;
    let rest = (s.samples - s.sample) * all;
    assert(rest >= 0 && (s.sample < s.samples ==> rest >= all)) by (nonlinear_arith)
        requires
            rest == (s.samples - s.sample) * all,
            all >= 4,
            s.sample <= s.samples,
    ;
    assert((s.samples - (s.sample + 1)) * all == rest - all) by (nonlinear_arith)
        requires
            rest == (s.samples - s.sample) * all,
    ;
}

/// The passing of messages never gets stuck and ends: until both cores are
/// finished something can happen, and whatever can, leaves less to do.
pub proof fn law_messages_end(slots: usize, samples: u32, moves: Seq<Move>)
    requires
        possible(slots, samples, moves),
    ensures
        ({
            let e = reached(slots, samples, moves);
            &&& e.finished() || e.allows(Move::Both) || e.allows(Move::Receives) || e.allows(
                Move::Sends,
            )
            &&& forall|m: Move| #[trigger]
                e.allows(m) ==> left(e.after(m).receiver) + left(e.after(m).sender) < left(
                    e.receiver,
                ) + left(e.sender)
        }),
{
    law_in_step(slots, samples, moves);
    let e = reached(slots, samples, moves);
    if e.receiver.due() is Take {
        let i = e.receiver.due()->Take_0;
        assert(e.slots[i as int] == held(e.sender, i as int));
    }
    assert forall|m: Move| #[trigger] e.allows(m) implies left(e.after(m).receiver) + left(
        e.after(m).sender,
    ) < left(e.receiver) + left(e.sender) by {
        if !(e.receiver.phase is Finished) {
            lemma_left(e.receiver);
        }
        if !(e.sender.phase is Finished) {
            lemma_left(e.sender);
        }
    }
}

/// When both cores are finished, every slot is empty again.
pub proof fn law_slots_empty_in_the_end(slots: usize, samples: u32, moves: Seq<Move>)
    requires
        possible(slots, samples, moves),
        reached(slots, samples, moves).finished(),
    ensures
        reached(slots, samples, moves).slots == begun(slots, samples).slots,
{
    law_in_step(slots, samples, moves);
    let e = reached(slots, samples, moves);
    assert forall|i: int| 0 <= i < slots implies e.slots[i] == begun(slots, samples).slots[i] by {
        assert(e.slots[i] == held(e.sender, i));
    }
    assert(e.slots =~= begun(slots, samples).slots);
}

/// How often the receiver has done a task.
pub open spec fn times_done(slots: usize, samples: u32, moves: Seq<Move>, task: Task) -> nat
    decreases moves.len(),
{
    if moves.len() == 0 {
        0
    } else {
        let before = moves.drop_last();
        times_done(slots, samples, before, task) + (if moves.last() is Receives && reached(
            slots,
            samples,
            before,
        ).receiver.due() == task {
            1nat
        } else {
            0nat
        })
    }
}

/// Whatever has happened, the receiver has recorded a result for each sample
/// that is done, and taken one message from each slot in each of them. When
/// both cores are finished it has recorded as many results as there are
/// samples, and taken as many messages from each slot.
pub proof fn law_result_per_sample(slots: usize, samples: u32, moves: Seq<Move>, i: usize)
    requires
        possible(slots, samples, moves),
        i < slots,
    ensures
        times_done(slots, samples, moves, Task::Record) == recorded(
            reached(slots, samples, moves).receiver,
        ),
        times_done(slots, samples, moves, Task::Take(i)) == taken(
            reached(slots, samples, moves).receiver,
            i,
        ),
        reached(slots, samples, moves).finished() ==> times_done(
            slots,
            samples,
            moves,
            Task::Record,
        ) == samples && times_done(slots, samples, moves, Task::Take(i)) == samples,
    decreases moves.len(),
{
    law_in_step(slots, samples, moves);
    if moves.len() > 0 {
        let before = moves.drop_last();
        law_in_step(slots, samples, before);
        law_result_per_sample(slots, samples, before, i);
    }
}

} // verus!
