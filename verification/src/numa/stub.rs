//! The backend without placement: one domain, memory from the heap.

use crate::number;
use crate::numa;
use crate::numa::{MemPlacement, NodeInfo, Topology};
use vstd::prelude::*;

verus! {

/// The startup hook. It does nothing.
pub fn init() {
}

/// Whether NUMA can be used: it cannot.
pub fn available() -> (r: bool)
    ensures
        !r,
{
    false
}

/// The node of a cpu: there is only one.
pub fn node_of_cpu(cpu: usize) -> (r: usize)
    ensures
        r == 0,
{
    0
}

/// The topology: no node is known.
pub fn discover() -> (r: Topology)
    ensures
        r.nodes@ == Seq::<NodeInfo>::empty(),
{
    Topology { nodes: Vec::new() }
}

/// A buffer on the heap, all zero.
#[derive(Clone, Copy, Debug, PartialEq, Eq, Structural)]
pub struct NumaBuffer {
    /// The bytes of the buffer.
    pub len: usize,
}

/// Whether a buffer can be asked for: a cache line at least, and a number of
/// bytes that a `usize` holds.
pub open spec fn can_ask(n_cachelines: usize) -> bool {
    n_cachelines >= 1 && n_cachelines * numa::CACHELINE_SIZE <= usize::MAX
}

/// The bytes to take from the heap, or why there is no buffer.
pub open spec fn bytes_asked(placement: MemPlacement, n_cachelines: usize) -> Result<
    int,
    Seq<char>,
> {
    match placement {
        MemPlacement::Bound(node) => Err(
            "NUMA placement on node "@ + number::dec(node as nat)
                + " requires the `numa` build feature"@,
        ),
        MemPlacement::Default => Ok(n_cachelines * numa::CACHELINE_SIZE),
    }
}

/// What the heap gave.
pub enum HeapAnswer {
    /// The layout was refused, with this error.
    BadLayout(String),
    /// There was no memory.
    Exhausted,
    /// The memory is there.
    Taken,
}

/// Whether a buffer of so many cache lines can be asked for.
pub fn alloc_fits(n_cachelines: usize) -> (r: bool)
    ensures
        r == can_ask(n_cachelines),
{
    n_cachelines >= 1 && n_cachelines <= usize::MAX / numa::CACHELINE_SIZE
}

impl NumaBuffer {
    /// Begins to allocate cache lines: the bytes to take from the heap. A
    /// placement on a node is refused.
    pub fn allocate(placement: MemPlacement, n_cachelines: usize) -> (r: Result<usize, String>)
        requires
            placement == MemPlacement::Default ==> can_ask(n_cachelines),
        ensures
            match bytes_asked(placement, n_cachelines) {
                Ok(n) => r matches Ok(len) && len == n,
                Err(e) => r matches Err(t) && t@ == e,
            },
    {
        if let MemPlacement::Bound(n) = placement {
            let mut e: String = "NUMA placement on node ".to_owned();
            number::push_usize(&mut e, n);
            e.append(" requires the `numa` build feature");
            return Err(e);
        }
        Ok(n_cachelines * numa::CACHELINE_SIZE)
    }

    /// The buffer, once the heap has answered.
    pub fn resume(len: usize, answer: HeapAnswer) -> (r: Result<NumaBuffer, String>)
        ensures
            match answer {
                HeapAnswer::BadLayout(e) => r matches Err(t) && t@ == "bad layout: "@ + e@,
                HeapAnswer::Exhausted => r matches Err(t) && t@ == "heap allocation failed"@,
                HeapAnswer::Taken => r == Ok::<NumaBuffer, String>(NumaBuffer { len }),
            },
    {
        match answer {
            HeapAnswer::BadLayout(error) => {
                let mut e: String = "bad layout: ".to_owned();
                e.append(error.as_str());
                Err(e)
            },
            HeapAnswer::Exhausted => Err("heap allocation failed".to_owned()),
            HeapAnswer::Taken => Ok(NumaBuffer { len }),
        }
    }

    /// The node of the buffer: there is only one.
    pub fn node(&self) -> (r: i32)
        ensures
            r == 0,
    {
        0
    }

    /// Whether the pages are on more than one node: they are not.
    pub fn spanned(&self) -> (r: bool)
        ensures
            !r,
    {
        false
    }
}

/// Cache lines of 64 bytes are taken from the heap; a placement on a node is
/// refused, with the node named.
pub proof fn law_bytes_asked(n_cachelines: usize, node: usize)
    ensures
        bytes_asked(MemPlacement::Default, n_cachelines) == Ok::<int, Seq<char>>(
            64 * n_cachelines,
        ),
        bytes_asked(MemPlacement::Bound(node), n_cachelines) == Err::<int, Seq<char>>(
            "NUMA placement on node "@ + number::dec(node as nat)
                + " requires the `numa` build feature"@,
        ),
{
}

} // verus!
