//! The benchmarks.

use crate::double::Double;
use crate::exchange::Flags;
use crate::numa::Placed;
use crate::number;
use vstd::prelude::*;

verus! {

/// A benchmark.
#[derive(Clone, Copy, Debug, PartialEq, Eq, Structural)]
pub enum BenchKind {
    /// Latency of compare-and-exchange on one shared cache line.
    Cas,
    /// Latency between one writer and one reader on two shared cache lines.
    ReadWrite,
    /// Latency of messages from one writer to one reader on many cache lines.
    MsgPassing,
}

impl BenchKind {
    /// The benchmark with a number.
    pub open spec fn numbered(number: usize) -> Option<BenchKind> {
        if number == 1 {
            Some(BenchKind::Cas)
        } else if number == 2 {
            Some(BenchKind::ReadWrite)
        } else if number == 3 {
            Some(BenchKind::MsgPassing)
        } else {
            None
        }
    }

    /// The name of the benchmark in file names and messages.
    pub open spec fn named(self) -> Seq<char> {
        match self {
            BenchKind::Cas => "cas"@,
            BenchKind::ReadWrite => "read_write"@,
            BenchKind::MsgPassing => "msg_passing"@,
        }
    }

    /// What is shown before the benchmark.
    pub open spec fn heading(self) -> Seq<char> {
        match self {
            BenchKind::Cas => "\n1) CAS latency on a single shared cache line\n\n"@,
            BenchKind::ReadWrite =>
                "\n2) Single-writer single-reader latency on two shared cache lines\n\n"@,
            BenchKind::MsgPassing =>
                "\n3) Message passing. One writer and one reader on many cache line\n\n"@,
        }
    }

    /// The addresses that the benchmark tests of those asked for.
    pub open spec fn addresses(self, num_addresses: usize) -> usize {
        match self {
            BenchKind::Cas => num_addresses,
            BenchKind::ReadWrite | BenchKind::MsgPassing => 1,
        }
    }

    /// The cache lines of the buffer for one memory domain.
    pub open spec fn lines(self, num_addresses: usize, num_iterations: u32) -> usize {
        match self {
            BenchKind::Cas => num_addresses,
            BenchKind::ReadWrite => 2,
            BenchKind::MsgPassing => num_iterations as usize,
        }
    }

    /// What is said where more addresses, or fewer, were asked for than the
    /// benchmark tests.
    pub open spec fn ignored_text(self, num_addresses: usize) -> Option<Seq<char>> {
        if self.addresses(num_addresses) == num_addresses {
            None
        } else {
            Some(
                "    WARN: num_addresses="@ + number::dec(num_addresses as nat) + " ignored for "@
                    + self.named() + " (only supports 1)\n"@,
            )
        }
    }

    /// The benchmark with a number, where there is one.
    pub fn from_number(number: usize) -> (r: Option<BenchKind>)
        ensures
            r == BenchKind::numbered(number),
    {
        if number == 1 {
            Some(BenchKind::Cas)
        } else if number == 2 {
            Some(BenchKind::ReadWrite)
        } else if number == 3 {
            Some(BenchKind::MsgPassing)
        } else {
            None
        }
    }

    /// The name of the benchmark in file names and messages.
    pub fn name(self) -> (r: &'static str)
        ensures
            r@ == self.named(),
    {
        match self {
            BenchKind::Cas => "cas",
            BenchKind::ReadWrite => "read_write",
            BenchKind::MsgPassing => "msg_passing",
        }
    }

    /// What is shown before the benchmark.
    pub fn title(self) -> (r: &'static str)
        ensures
            r@ == self.heading(),
    {
        match self {
            BenchKind::Cas => "\n1) CAS latency on a single shared cache line\n\n",
            BenchKind::ReadWrite =>
                "\n2) Single-writer single-reader latency on two shared cache lines\n\n",
            BenchKind::MsgPassing =>
                "\n3) Message passing. One writer and one reader on many cache line\n\n",
        }
    }

    /// The cache lines of the buffer for one memory domain.
    pub fn cache_lines(self, num_addresses: usize, num_iterations: u32) -> (r: usize)
        ensures
            r == self.lines(num_addresses, num_iterations),
    {
        match self {
            BenchKind::Cas => num_addresses,
            BenchKind::ReadWrite => 2,
            BenchKind::MsgPassing => num_iterations as usize,
        }
    }

    /// Where the flags of the exchange are; messages have none.
    pub fn flags(self) -> (r: Option<Flags>)
        ensures
            r == match self {
                BenchKind::Cas => Some(Flags::Shared),
                BenchKind::ReadWrite => Some(Flags::Owned),
                BenchKind::MsgPassing => None,
            },
    {
        match self {
            BenchKind::Cas => Some(Flags::Shared),
            BenchKind::ReadWrite => Some(Flags::Owned),
            BenchKind::MsgPassing => None,
        }
    }

    /// What is said of a number of addresses that the benchmark ignores.
    pub fn ignored_warning(self, num_addresses: usize) -> (r: Option<String>)
        ensures
            match self.ignored_text(num_addresses) {
                None => r is None,
                Some(t) => r matches Some(s) && s@ == t,
            },
    {
        if self == BenchKind::Cas || num_addresses == 1 {
            return None;
        }
        let mut out: String = "    WARN: num_addresses=".to_owned();
        number::push_usize(&mut out, num_addresses);
        out.append(" ignored for ");
        out.append(self.name());
        out.append(" (only supports 1)\n");
        Some(out)
    }
}

/// A benchmark with its buffers, one for each memory domain.
#[derive(Debug)]
pub struct Bench {
    pub kind: BenchKind,
    pub num_addresses: usize,
    /// Where the buffers are, in the order of the domains.
    pub placed: Vec<Placed>,
}

/// The first error among the attempts to allocate a buffer.
pub open spec fn first_error(attempts: Seq<Result<Placed, String>>) -> Option<Seq<char>>
    decreases attempts.len(),
{
    if attempts.len() == 0 {
        None
    } else {
        match attempts[0] {
            Err(e) => Some(e@),
            Ok(_) => first_error(attempts.drop_first()),
        }
    }
}

/// Where the buffers are that were allocated.
pub open spec fn all_placed(attempts: Seq<Result<Placed, String>>) -> Seq<Placed> {
    attempts.map_values(|a: Result<Placed, String>| a->Ok_0)
}

/// What is said where a buffer could not be allocated.
pub open spec fn failure_text(kind: BenchKind, error: Seq<char>) -> Seq<char> {
    kind.named() + ": NUMA buffer allocation failed: "@ + error
}

impl Bench {
    /// The benchmark, once its buffers are allocated; the first that could not
    /// be is the error.
    pub fn new(
        kind: BenchKind,
        num_addresses: usize,
        attempts: &[Result<Placed, String>],
    ) -> (r: Result<Bench, String>)
        ensures
            match first_error(attempts@) {
                Some(e) => r matches Err(t) && t@ == failure_text(kind, e),
                None => r matches Ok(b) && b.kind == kind && b.num_addresses == kind.addresses(
                    num_addresses,
                ) && b.placed@ == all_placed(attempts@),
            },
    {
        let mut placed: Vec<Placed> = Vec::new();
        let mut i: usize = 0;
        assert(attempts@.skip(0) =~= attempts@);
        while i < attempts.len()
            invariant
                i <= attempts@.len(),
                first_error(attempts@) == first_error(attempts@.skip(i as int)),
                placed@ == all_placed(attempts@).take(i as int),
            decreases attempts@.len() - i,
        {
            assert(attempts@.skip(i as int)[0] == attempts@[i as int]);
            assert(attempts@.skip(i as int).drop_first() =~= attempts@.skip(i + 1));
            match &attempts[i] {
                Ok(p) => {
                    placed.push(*p);
                    assert(placed@ =~= all_placed(attempts@).take(i + 1));
                },
                Err(e) => {
                    let mut out: String = kind.name().to_owned();
                    out.append(": NUMA buffer allocation failed: ");
                    out.append(e.as_str());
                    return Err(out);
                },
            }
            i = i + 1;
        }
        assert(placed@ =~= all_placed(attempts@));
        let num_addresses: usize = match kind {
            BenchKind::Cas => num_addresses,
            BenchKind::ReadWrite => 1,
            BenchKind::MsgPassing => 1,
        };
        Ok(Bench { kind, num_addresses, placed })
    }

    /// Begins a run between two cores, with so many samples of each address.
    pub fn run(&self, num_samples: u32) -> (r: Run)
        ensures
            r.num_addresses == self.num_addresses,
            r.num_samples == num_samples,
            r.durations@ == Seq::<Vec<Double>>::empty(),
            r.well_formed(),
    {
        Run { num_addresses: self.num_addresses, num_samples, durations: Vec::new() }
    }

    /// Whether the latency from one core to another is that of the way back.
    /// Messages go one way.
    pub fn is_symmetric(&self) -> (r: bool)
        ensures
            r == !(self.kind is MsgPassing),
    {
        match self.kind {
            BenchKind::Cas => true,
            BenchKind::ReadWrite => true,
            BenchKind::MsgPassing => false,
        }
    }

    /// The number of addresses that the benchmark tests.
    pub fn num_addresses(&self) -> (r: usize)
        ensures
            r == self.num_addresses,
    {
        self.num_addresses
    }

    /// The number of memory domains.
    pub fn num_domains(&self) -> (r: usize)
        ensures
            r == self.placed@.len(),
    {
        self.placed.len()
    }

    /// The nodes of the domains, in order; -1 where a node is not verified.
    pub fn mem_numa_nodes(&self) -> (r: Vec<i32>)
        ensures
            r@ == self.placed@.map_values(|p: Placed| p.node),
    {
        let mut nodes: Vec<i32> = Vec::new();
        let mut i: usize = 0;
        while i < self.placed.len()
            invariant
                i <= self.placed@.len(),
                nodes@ == self.placed@.map_values(|p: Placed| p.node).take(i as int),
            decreases self.placed@.len() - i,
        {
            nodes.push(self.placed[i].node);
            i = i + 1;
            assert(nodes@ =~= self.placed@.map_values(|p: Placed| p.node).take(i as int));
        }
        assert(nodes@ =~= self.placed@.map_values(|p: Placed| p.node));
        nodes
    }

    /// Whether the buffers are on more than one node, in order.
    pub fn mem_numa_spanned(&self) -> (r: Vec<bool>)
        ensures
            r@ == self.placed@.map_values(|p: Placed| p.spanned),
    {
        let mut spanned: Vec<bool> = Vec::new();
        let mut i: usize = 0;
        while i < self.placed.len()
            invariant
                i <= self.placed@.len(),
                spanned@ == self.placed@.map_values(|p: Placed| p.spanned).take(i as int),
            decreases self.placed@.len() - i,
        {
            spanned.push(self.placed[i].spanned);
            i = i + 1;
            assert(spanned@ =~= self.placed@.map_values(|p: Placed| p.spanned).take(i as int));
        }
        assert(spanned@ =~= self.placed@.map_values(|p: Placed| p.spanned));
        spanned
    }
}

/// A run between two cores: one address after the other is measured.
pub struct Run {
    pub num_addresses: usize,
    /// The samples of each address, the one that warms up among them.
    pub num_samples: u32,
    /// The durations of the addresses that are done.
    pub durations: Vec<Vec<Double>>,
}

impl Run {
    /// Whether each address that is done has all of its samples.
    pub open spec fn well_formed(self) -> bool {
        &&& self.durations@.len() <= self.num_addresses
        &&& forall|a: int|
            0 <= a < self.durations@.len() ==> (#[trigger] self.durations@[a])@.len()
                == self.num_samples
    }

    /// The address to measure next, if one is left.
    pub fn address(&self) -> (r: Option<usize>)
        ensures
            r == (if self.durations@.len() < self.num_addresses {
                Some(self.durations@.len() as usize)
            } else {
                None
            }),
    {
        if self.durations.len() < self.num_addresses {
            Some(self.durations.len())
        } else {
            None
        }
    }

    /// Keeps the durations of an address.
    pub fn keep(&mut self, durations: Vec<Double>)
        requires
            old(self).well_formed(),
            old(self).durations@.len() < old(self).num_addresses,
            durations@.len() == old(self).num_samples,
        ensures
            final(self).num_addresses == old(self).num_addresses,
            final(self).num_samples == old(self).num_samples,
            final(self).durations@ == old(self).durations@.push(durations),
            final(self).well_formed(),
    {
        self.durations.push(durations);
    }

    /// The durations of a run that has measured every address: as many lists
    /// as there are addresses, each as long as there are samples.
    pub fn into_durations(self) -> (r: Vec<Vec<Double>>)
        requires
            self.well_formed(),
            self.durations@.len() >= self.num_addresses,
        ensures
            r@ == self.durations@,
            r@.len() == self.num_addresses,
            forall|a: int| 0 <= a < r@.len() ==> (#[trigger] r@[a])@.len() == self.num_samples,
    {
        self.durations
    }
}

/// A benchmark has a domain for each buffer, and only where every buffer was
/// allocated.
pub proof fn law_domain_per_buffer(attempts: Seq<Result<Placed, String>>)
    ensures
        first_error(attempts) is None <==> forall|i: int|
            0 <= i < attempts.len() ==> #[trigger] attempts[i] is Ok,
        all_placed(attempts).len() == attempts.len(),
    decreases attempts.len(),
{
    if attempts.len() > 0 {
        let rest = attempts.drop_first();
        law_domain_per_buffer(rest);
        if first_error(attempts) is None {
            assert forall|i: int| 0 <= i < attempts.len() implies #[trigger] attempts[i] is Ok by {
                if i > 0 {
                    assert(attempts[i] == rest[i - 1]);
                }
            }
        }
        if forall|i: int| 0 <= i < attempts.len() ==> #[trigger] attempts[i] is Ok {
            assert forall|i: int| 0 <= i < rest.len() implies #[trigger] rest[i] is Ok by {
                assert(rest[i] == attempts[i + 1]);
            }
        }
    }
}

/// What each benchmark is: its number, its cache lines, the addresses that it
/// tests, and whether it is told that others were asked for.
pub proof fn law_kinds(num_addresses: usize, num_iterations: u32, number: usize)
    ensures
        BenchKind::Cas.lines(num_addresses, num_iterations) == num_addresses,
        BenchKind::ReadWrite.lines(num_addresses, num_iterations) == 2,
        BenchKind::MsgPassing.lines(num_addresses, num_iterations) == num_iterations,
        BenchKind::Cas.addresses(num_addresses) == num_addresses,
        BenchKind::ReadWrite.addresses(num_addresses) == 1,
        BenchKind::MsgPassing.addresses(num_addresses) == 1,
        BenchKind::Cas.ignored_text(num_addresses) is None,
        BenchKind::ReadWrite.ignored_text(num_addresses) is None <==> num_addresses == 1,
        BenchKind::MsgPassing.ignored_text(num_addresses) is None <==> num_addresses == 1,
        BenchKind::numbered(number) is Some <==> 1 <= number <= 3,
        BenchKind::numbered(1) == Some(BenchKind::Cas),
        BenchKind::numbered(2) == Some(BenchKind::ReadWrite),
        BenchKind::numbered(3) == Some(BenchKind::MsgPassing),
{
}

/// The error of a benchmark is that of the first buffer that could not be
/// allocated; the domains are those of the buffers, in order.
pub proof fn law_first_failure(attempts: Seq<Result<Placed, String>>, k: int)
    requires
        0 <= k < attempts.len(),
        forall|i: int| 0 <= i < k ==> #[trigger] attempts[i] is Ok,
    ensures
        attempts[k] matches Err(e) ==> first_error(attempts) == Some(e@),
        attempts[k] matches Ok(p) ==> all_placed(attempts)[k] == p,
    decreases attempts.len(),
{
    if k > 0 {
        let rest = attempts.drop_first();
        assert forall|i: int| 0 <= i < k - 1 implies #[trigger] rest[i] is Ok by {
            assert(rest[i] == attempts[i + 1]);
        }
        law_first_failure(rest, k - 1);
        assert(attempts[0] is Ok);
        assert(rest[k - 1] == attempts[k]);
    }
}

/// No two benchmarks have the same name or are shown under the same heading, so
/// the files of one are never those of another. A warning names the benchmark
/// and the number that it ignores.
pub proof fn law_names(a: BenchKind, b: BenchKind, num_addresses: usize)
    ensures
        a.named() == b.named() ==> a == b,
        a.heading() == b.heading() ==> a == b,
        !(a is Cas) && num_addresses != 1 ==> a.ignored_text(num_addresses) == Some(
            "    WARN: num_addresses="@ + number::dec(num_addresses as nat) + " ignored for "@
                + a.named() + " (only supports 1)\n"@,
        ),
{
    reveal_strlit("cas");
    reveal_strlit("read_write");
    reveal_strlit("msg_passing");
    reveal_strlit("\n1) CAS latency on a single shared cache line\n\n");
    reveal_strlit("\n2) Single-writer single-reader latency on two shared cache lines\n\n");
    reveal_strlit("\n3) Message passing. One writer and one reader on many cache line\n\n");
    assert(BenchKind::Cas.named()[0] == 'c');
    assert(BenchKind::ReadWrite.named()[0] == 'r');
    assert(BenchKind::MsgPassing.named()[0] == 'm');
    assert(BenchKind::Cas.heading()[1] == '1');
    assert(BenchKind::ReadWrite.heading()[1] == '2');
    assert(BenchKind::MsgPassing.heading()[1] == '3');
}

/// What is said where a buffer could not be allocated names the benchmark and
/// ends with the error.
pub proof fn law_failure_text(kind: BenchKind, error: Seq<char>)
    ensures
        failure_text(kind, error) == kind.named() + (": NUMA buffer allocation failed: "@ + error),
        kind.named().is_prefix_of(failure_text(kind, error)),
        error.is_suffix_of(failure_text(kind, error)),
{
    let t = failure_text(kind, error);
    assert(t =~= kind.named() + (": NUMA buffer allocation failed: "@ + error));
    assert(t.subrange(0, kind.named().len() as int) =~= kind.named());
    assert(t.subrange(t.len() - error.len(), t.len() as int) =~= error);
}

} // verus!
