//! NUMA-aware placement of the shared memory.
//!
//! Two backends stand side by side: [`syscall`] discovers the topology from
//! sysfs and places memory with the kernel's NUMA system calls, [`stub`]
//! reports a single domain and takes memory from the heap. What the kernel
//! says comes in as plain values: the text of the sysfs files in [`Sysfs`],
//! and the results of the system calls as arguments.
//!
//! A resolved placement is an `i32` node id, where `-1` means that it is
//! unverified: under the kernel's own placement the host may not be able to
//! say where the pages landed, and that is no failure.

pub mod stub;
pub mod syscall;

use crate::double;
use crate::double::{Arith, Double, Notation, Op};
use crate::ids;
use crate::number;
use crate::select;
use crate::select::CoreId;
use crate::style;
use crate::style::Tint;
use std::collections::HashMap;
use vstd::prelude::*;

verus! {

/// Bytes of a cache line.
pub const CACHELINE_SIZE: usize = 64;

/// Where the shared cache lines of one benchmark domain should live.
#[derive(Clone, Copy, Debug, PartialEq, Eq, Structural)]
pub enum MemPlacement {
    /// Where the kernel puts them; nothing is bound.
    Default,
    /// On one NUMA node.
    Bound(usize),
}

/// What is known of the memory of one benchmark domain.
#[derive(Clone, Copy, Debug, PartialEq, Eq, Structural)]
pub struct Placed {
    /// The node that the pages landed on, or `-1` where it is unverified.
    pub node: i32,
    /// Whether the pages landed on more than one node.
    pub spanned: bool,
}

/// Whether memory can be placed: the build has the NUMA feature and runs on Linux.
pub fn feature_enabled(numa_feature: bool, linux: bool) -> (r: bool)
    ensures
        r == (numa_feature && linux),
{
    numa_feature && linux
}

// ---------------------------------------------------------------------------
// Number of nodes
// ---------------------------------------------------------------------------

/// The highest of the ids; 0 where there is none.
pub open spec fn highest(v: Seq<usize>) -> usize
    decreases v.len(),
{
    if v.len() == 0 {
        0
    } else if v.last() >= highest(v.drop_last()) {
        v.last()
    } else {
        highest(v.drop_last())
    }
}

/// The number of nodes that covers every online node: one above the highest
/// id, or 1 where no node is known.
pub open spec fn node_count(online: Seq<usize>) -> nat {
    if online.len() == 0 {
        1
    } else {
        (highest(online) + 1) as nat
    }
}

/// Whether that number is a `usize`.
pub open spec fn count_fits(online: Seq<usize>) -> bool {
    node_count(online) <= usize::MAX
}

/// The number of nodes that covers every node of `online`.
pub fn num_nodes_from(online: &[usize]) -> (r: usize)
    requires
        count_fits(online@),
    ensures
        r == node_count(online@),
{
    if online.len() == 0 {
        return 1;
    }
    let mut top: usize = 0;
    let mut i: usize = 0;
    while i < online.len()
        invariant
            i <= online@.len(),
            top == highest(online@.take(i as int)),
        decreases online@.len() - i,
    {
        assert(online@.take(i + 1).drop_last() == online@.take(i as int));
        if online[i] >= top {
            top = online[i];
        }
        i = i + 1;
    }
    assert(online@.take(i as int) == online@);
    top + 1
}

// ---------------------------------------------------------------------------
// The sysfs files
// ---------------------------------------------------------------------------

/// The files of one node, as far as they could be read.
pub struct NodeFiles {
    pub node: usize,
    pub cpulist: Option<String>,
    pub meminfo: Option<String>,
}

/// The part of sysfs that describes the nodes, as far as it could be read.
pub struct Sysfs {
    /// Whether the directory of the nodes exists.
    pub root_is_dir: bool,
    /// The list of the online nodes.
    pub online: Option<String>,
    /// The files of the nodes.
    pub nodes: Vec<NodeFiles>,
}

/// The ids in a list that may not have been readable.
pub open spec fn ids_in(file: Option<String>) -> Seq<usize> {
    match file {
        Some(s) => ids::sorted_set(ids::listed(s@)),
        None => seq![],
    }
}

/// The ids in a list that may not have been readable.
pub fn read_ids(file: &Option<String>) -> (r: Vec<usize>)
    ensures
        r@ == ids_in(*file),
{
    match file {
        Some(s) => ids::parse_list(s.as_str()),
        None => {
            let none: Vec<usize> = Vec::new();
            assert(none@ =~= ids_in(*file));
            none
        },
    }
}

/// The first entry for a node.
pub open spec fn files_of(nodes: Seq<NodeFiles>, node: usize) -> Option<NodeFiles>
    decreases nodes.len(),
{
    if nodes.len() == 0 {
        None
    } else {
        match files_of(nodes.drop_last(), node) {
            Some(f) => Some(f),
            None => if nodes.last().node == node {
                Some(nodes.last())
            } else {
                None
            },
        }
    }
}

proof fn lemma_files_of_some(nodes: Seq<NodeFiles>, node: usize, n: int)
    requires
        0 <= n <= nodes.len(),
        files_of(nodes.take(n), node) is Some,
    ensures
        files_of(nodes, node) == files_of(nodes.take(n), node),
    decreases nodes.len(),
{
    if n < nodes.len() {
        assert(nodes.drop_last().take(n) == nodes.take(n));
        lemma_files_of_some(nodes.drop_last(), node, n);
    } else {
        assert(nodes.take(n) == nodes);
    }
}

impl Sysfs {
    /// The online nodes, rising.
    pub open spec fn online_ids(self) -> Seq<usize> {
        ids_in(self.online)
    }

    /// The cpus of a node, rising.
    pub open spec fn cpus_of(self, node: usize) -> Seq<usize> {
        match files_of(self.nodes@, node) {
            Some(f) => ids_in(f.cpulist),
            None => seq![],
        }
    }

    /// The first entry for a node.
    pub fn files(&self, node: usize) -> (r: Option<&NodeFiles>)
        ensures
            match r {
                Some(f) => files_of(self.nodes@, node) == Some(*f),
                None => files_of(self.nodes@, node) is None,
            },
    {
        let mut i: usize = 0;
        while i < self.nodes.len()
            invariant
                i <= self.nodes@.len(),
                files_of(self.nodes@.take(i as int), node) is None,
            decreases self.nodes@.len() - i,
        {
            assert(self.nodes@.take(i + 1).drop_last() == self.nodes@.take(i as int));
            if self.nodes[i].node == node {
                proof {
                    lemma_files_of_some(self.nodes@, node, i + 1);
                }
                return Some(&self.nodes[i]);
            }
            i = i + 1;
        }
        assert(self.nodes@.take(i as int) == self.nodes@);
        None
    }

    /// The cpus of a node, rising.
    pub fn cpus(&self, node: usize) -> (r: Vec<usize>)
        ensures
            r@ == self.cpus_of(node),
    {
        match self.files(node) {
            Some(f) => read_ids(&f.cpulist),
            None => {
                let none: Vec<usize> = Vec::new();
                assert(none@ =~= self.cpus_of(node));
                none
            },
        }
    }

    /// Whether the number of nodes is a `usize`.
    pub fn node_count_fits(&self) -> (r: bool)
        ensures
            r == count_fits(self.online_ids()),
    {
        let online: Vec<usize> = online_nodes(self);
        let mut i: usize = 0;
        while i < online.len()
            invariant
                i <= online@.len(),
                online@ == self.online_ids(),
                highest(online@.take(i as int)) < usize::MAX,
            decreases online@.len() - i,
        {
            assert(online@.take(i + 1).drop_last() == online@.take(i as int));
            if online[i] == usize::MAX {
                proof {
                    lemma_highest(online@);
                }
                return false;
            }
            i = i + 1;
        }
        assert(online@.take(i as int) == online@);
        true
    }
}

/// The online nodes, rising; none where the list could not be read.
pub fn online_nodes(sysfs: &Sysfs) -> (r: Vec<usize>)
    ensures
        r@ == sysfs.online_ids(),
        ids::ascending(r@),
{
    proof {
        if sysfs.online is Some {
            ids::law_sorted_set(ids::listed(sysfs.online->0@));
        }
    }
    read_ids(&sysfs.online)
}

/// The number of nodes that covers every online node.
pub fn num_nodes(sysfs: &Sysfs) -> (r: usize)
    requires
        count_fits(sysfs.online_ids()),
    ensures
        r == node_count(sysfs.online_ids()),
{
    let online: Vec<usize> = online_nodes(sysfs);
    num_nodes_from(online.as_slice())
}

// ---------------------------------------------------------------------------
// Topology
// ---------------------------------------------------------------------------

/// One node of the topology.
pub struct NodeInfo {
    pub node: usize,
    pub cpus: Vec<usize>,
    pub mem_bytes: u64,
}

/// The nodes of the host.
pub struct Topology {
    pub nodes: Vec<NodeInfo>,
}

/// What there is to say about NUMA on this host.
pub struct Summary {
    pub feature_enabled: bool,
    pub num_nodes: usize,
    pub topology: Option<Topology>,
}

/// Gathers what there is to say about NUMA on this host. The topology is part
/// of it where memory can be placed.
pub fn summary_info(feature: bool, sysfs: &Sysfs) -> (r: Summary)
    requires
        count_fits(sysfs.online_ids()),
        feature ==> syscall::bytes_fit(*sysfs, sysfs.online_ids()),
    ensures
        r.feature_enabled == feature,
        r.num_nodes == node_count(sysfs.online_ids()),
        r.topology is Some <==> feature,
        r.topology matches Some(t) ==> syscall::maps_out(t, *sysfs, sysfs.online_ids()),
{
    let num_nodes: usize = num_nodes(sysfs);
    let topology: Option<Topology> = if feature {
        Some(syscall::discover(sysfs))
    } else {
        None
    };
    Summary { feature_enabled: feature, num_nodes, topology }
}

/// Whether the placement of each domain is shown: only where memory can be
/// placed and there is more than one node to place it on.
pub fn shows_placement(feature: bool, num_nodes: usize) -> (r: bool)
    ensures
        r == (feature && num_nodes > 1),
{
    feature && num_nodes > 1
}

/// The node of a core, as a signed number: its own where memory can be placed,
/// else 0.
pub open spec fn signed_node(feature: bool, sysfs: Sysfs, cpu: usize) -> i32 {
    if feature {
        syscall::cpu_node(sysfs, cpu) as i32
    } else {
        0
    }
}

/// The nodes of the cores.
pub fn core_numa(feature: bool, sysfs: &Sysfs, cores: &[CoreId]) -> (r: HashMap<usize, i32>)
    ensures
        forall|cpu: usize| #[trigger]
            r@.contains_key(cpu) <==> select::core_ids(cores@).contains(cpu),
        forall|cpu: usize| #[trigger]
            r@.contains_key(cpu) ==> r@[cpu] == signed_node(feature, *sysfs, cpu),
{
    broadcast use vstd::std_specs::hash::group_hash_axioms;

    let nodes: HashMap<usize, usize> = if feature {
        syscall::cpu_node_map(sysfs)
    } else {
        HashMap::new()
    };
    let ghost ids = select::core_ids(cores@);
    let mut map: HashMap<usize, i32> = HashMap::new();
    let mut i: usize = 0;
    while i < cores.len()
        invariant
            i <= cores@.len(),
            ids == select::core_ids(cores@),
            feature ==> forall|cpu: usize| #[trigger]
                syscall::entry(nodes@, cpu) == syscall::owner(*sysfs, sysfs.online_ids(), cpu),
            !feature ==> nodes@ == Map::<usize, usize>::empty(),
            forall|cpu: usize| #[trigger]
                map@.contains_key(cpu) <==> ids.take(i as int).contains(cpu),
            forall|cpu: usize| #[trigger]
                map@.contains_key(cpu) ==> map@[cpu] == signed_node(feature, *sysfs, cpu),
        decreases cores@.len() - i,
    {
        let id: usize = cores[i].id;
        let ghost before = map@;
        let node: usize = syscall::mapped_node(&nodes, id);
        assert(syscall::entry(nodes@, id) == if feature {
            syscall::owner(*sysfs, sysfs.online_ids(), id)
        } else {
            None
        });
        map.insert(id, node as i32);
        proof {
            let t = ids.take(i as int);
            let u = ids.take(i + 1);
            assert(u =~= t.push(id));
            assert forall|cpu: usize| #[trigger] map@.contains_key(cpu) <==> u.contains(cpu) by {
                assert(before.contains_key(cpu) <==> t.contains(cpu));
                assert(u[i as int] == id);
                if t.contains(cpu) {
                    let k = choose|k: int| 0 <= k < t.len() && t[k] == cpu;
                    assert(u[k] == cpu);
                }
            }
        }
        i = i + 1;
    }
    assert(ids.take(i as int) =~= ids);
    map
}

// ---------------------------------------------------------------------------
// On the console
// ---------------------------------------------------------------------------

/// The memory of a node in GB.
pub open spec fn memory_text(m: Arith, w: Notation, mem_bytes: u64) -> Seq<char> {
    if mem_bytes == 0 {
        "? GB"@
    } else {
        w(
            1,
            m(
                Op::Quotient,
                seq![m(Op::Count(mem_bytes), seq![]), Double { bits: double::GIB }],
            ),
        ) + " GB"@
    }
}

/// The line of a node.
pub open spec fn node_line(m: Arith, w: Notation, info: NodeInfo) -> Seq<char> {
    "  node "@ + number::dec(info.node as nat) + ": "@ + number::dec(info.cpus@.len())
        + " cpus ["@ + ids::ranges_text(info.cpus@) + "], "@ + memory_text(m, w, info.mem_bytes)
        + "\n"@
}

/// The lines of the nodes.
pub open spec fn node_lines(m: Arith, w: Notation, nodes: Seq<NodeInfo>) -> Seq<char>
    decreases nodes.len(),
{
    if nodes.len() == 0 {
        seq![]
    } else {
        node_lines(m, w, nodes.drop_last()) + node_line(m, w, nodes.last())
    }
}

/// What is said of a host whose memory this build cannot place.
pub open spec fn no_feature_text(num_nodes: usize) -> Seq<char> {
    "NUMA: "@ + number::dec(num_nodes as nat)
        + " nodes detected; binary built without the `numa` feature\n"@ + style::painted(
        Tint::YellowBold,
        "WARN: "@ + number::dec(num_nodes as nat)
            + " NUMA nodes detected but this binary was not built with the 'numa' feature. Rebuild with `cargo build --release --features numa` (Linux only) and pass --numa <node(s)> to pin placement. Running with kernel-default first-touch placement, which may vary run-to-run."@,
    ) + "\n"@
}

/// What is said where placement is possible and was not asked for.
pub open spec fn unpinned_text(num_nodes: usize) -> Seq<char> {
    style::painted(
        Tint::YellowBold,
        "WARN: "@ + number::dec(num_nodes as nat)
            + " NUMA nodes detected but --numa was not given. The shared cache lines use kernel-default first-touch placement, so results may vary run-to-run. Pass --numa <node(s)> to pin placement."@,
    ) + "\n"@
}

/// What is said about NUMA: one line for a single domain, a warning where the
/// build cannot place memory, else the topology and the domains under test,
/// with a warning where none was asked for.
pub open spec fn numa_text(
    m: Arith,
    w: Notation,
    feature: bool,
    num_nodes: usize,
    nodes: Seq<NodeInfo>,
    placements: Seq<MemPlacement>,
    requested: bool,
) -> Seq<char> {
    if num_nodes <= 1 {
        "NUMA: not detected (single domain)\n"@
    } else if !feature {
        no_feature_text(num_nodes)
    } else {
        "NUMA: "@ + number::dec(nodes.len()) + " node(s)\n"@ + node_lines(m, w, nodes)
            + "  Memory domains under test: "@ + select::domains_text(placements) + "\n"@ + (
        if requested {
            ""@
        } else {
            unpinned_text(num_nodes)
        })
    }
}

/// The memory of a node in GB.
fn fmt_memory<F: Fn(Op, &[Double]) -> Double, G: Fn(u8, Double) -> String>(
    f: &F,
    g: &G,
    mem_bytes: u64,
) -> (r: String)
    requires
        double::answers(*f),
        double::writes(*g),
    ensures
        forall|m: Arith, w: Notation|
            #[trigger] double::describes(m, *f) && #[trigger] double::spells(w, *g) ==> r@
                == memory_text(m, w, mem_bytes),
{
    if mem_bytes == 0 {
        return "? GB".to_owned();
    }
    let bytes: Double = double::count(f, mem_bytes);
    let gb: Double = double::apply(f, Op::Quotient, bytes, Double { bits: double::GIB });
    let mut out: String = double::write_double(g, 1, gb);
    out.append(" GB");
    out
}

/// The line of a node.
fn fmt_node<F: Fn(Op, &[Double]) -> Double, G: Fn(u8, Double) -> String>(
    f: &F,
    g: &G,
    info: &NodeInfo,
) -> (r: String)
    requires
        double::answers(*f),
        double::writes(*g),
    ensures
        forall|m: Arith, w: Notation|
            #[trigger] double::describes(m, *f) && #[trigger] double::spells(w, *g) ==> r@
                == node_line(m, w, *info),
{
    let mut out: String = "  node ".to_owned();
    number::push_usize(&mut out, info.node);
    out.append(": ");
    number::push_usize(&mut out, info.cpus.len());
    out.append(" cpus [");
    let cpus: String = ids::fmt_ranges(info.cpus.as_slice());
    out.append(cpus.as_str());
    out.append("], ");
    let memory: String = fmt_memory(f, g, info.mem_bytes);
    out.append(memory.as_str());
    out.append("\n");
    out
}

/// The lines of the nodes.
fn fmt_nodes<F: Fn(Op, &[Double]) -> Double, G: Fn(u8, Double) -> String>(
    f: &F,
    g: &G,
    nodes: &[NodeInfo],
) -> (r: String)
    requires
        double::answers(*f),
        double::writes(*g),
    ensures
        forall|m: Arith, w: Notation|
            #[trigger] double::describes(m, *f) && #[trigger] double::spells(w, *g) ==> r@
                == node_lines(m, w, nodes@),
{
    let mut out: String = String::new();
    let mut i: usize = 0;
    while i < nodes.len()
        invariant
            i <= nodes@.len(),
            double::answers(*f),
            double::writes(*g),
            forall|m: Arith, w: Notation|
                #[trigger] double::describes(m, *f) && #[trigger] double::spells(w, *g) ==> out@
                    == node_lines(m, w, nodes@.take(i as int)),
        decreases nodes@.len() - i,
    {
        assert(nodes@.take(i + 1).drop_last() == nodes@.take(i as int));
        let line: String = fmt_node(f, g, &nodes[i]);
        out.append(line.as_str());
        i = i + 1;
    }
    assert(nodes@.take(i as int) == nodes@);
    out
}

/// What is said of a host whose memory this build cannot place.
fn fmt_no_feature(num_nodes: usize) -> (r: String)
    ensures
        r@ == no_feature_text(num_nodes),
{
    let mut warning: String = "WARN: ".to_owned();
    number::push_usize(&mut warning, num_nodes);
    warning.append(
        " NUMA nodes detected but this binary was not built with the 'numa' feature. Rebuild with `cargo build --release --features numa` (Linux only) and pass --numa <node(s)> to pin placement. Running with kernel-default first-touch placement, which may vary run-to-run.",
    );
    let mut out: String = "NUMA: ".to_owned();
    number::push_usize(&mut out, num_nodes);
    out.append(" nodes detected; binary built without the `numa` feature\n");
    let painted: String = style::paint(Tint::YellowBold, warning.as_str());
    out.append(painted.as_str());
    out.append("\n");
    out
}

/// What is said where placement is possible and was not asked for.
fn fmt_unpinned(num_nodes: usize) -> (r: String)
    ensures
        r@ == unpinned_text(num_nodes),
{
    let mut warning: String = "WARN: ".to_owned();
    number::push_usize(&mut warning, num_nodes);
    warning.append(
        " NUMA nodes detected but --numa was not given. The shared cache lines use kernel-default first-touch placement, so results may vary run-to-run. Pass --numa <node(s)> to pin placement.",
    );
    let mut out: String = style::paint(Tint::YellowBold, warning.as_str());
    out.append("\n");
    out
}

/// The nodes of a topology, where there is one.
pub open spec fn known_nodes(summary: Summary) -> Seq<NodeInfo> {
    match summary.topology {
        Some(t) => t.nodes@,
        None => seq![],
    }
}

/// What is said about NUMA. `requested` says whether domains were asked for.
pub fn fmt_numa<F: Fn(Op, &[Double]) -> Double, G: Fn(u8, Double) -> String>(
    f: &F,
    g: &G,
    summary: &Summary,
    placements: &[MemPlacement],
    requested: bool,
) -> (r: String)
    requires
        double::answers(*f),
        double::writes(*g),
        summary.num_nodes > 1 && summary.feature_enabled ==> summary.topology is Some,
    ensures
        forall|m: Arith, w: Notation|
            #[trigger] double::describes(m, *f) && #[trigger] double::spells(w, *g) ==> r@
                == numa_text(
                m,
                w,
                summary.feature_enabled,
                summary.num_nodes,
                known_nodes(*summary),
                placements@,
                requested,
            ),
{
    if summary.num_nodes <= 1 {
        return "NUMA: not detected (single domain)\n".to_owned();
    }
    if !summary.feature_enabled {
        return fmt_no_feature(summary.num_nodes);
    }
    let mut out: String = "NUMA: ".to_owned();
    match &summary.topology {
        Some(t) => {
            number::push_usize(&mut out, t.nodes.len());
            out.append(" node(s)\n");
            let lines: String = fmt_nodes(f, g, t.nodes.as_slice());
            out.append(lines.as_str());
        },
        None => {},
    }
    out.append("  Memory domains under test: ");
    let domains: String = select::fmt_domains(placements);
    out.append(domains.as_str());
    out.append("\n");
    let warning: String = if requested {
        "".to_owned()
    } else {
        fmt_unpinned(summary.num_nodes)
    };
    out.append(warning.as_str());
    out
}

// ---------------------------------------------------------------------------
// Views of a buffer
// ---------------------------------------------------------------------------

/// Why a buffer cannot be looked at as so many values of a size and an
/// alignment; nothing where it can.
pub open spec fn view_fault(
    len: usize,
    address: usize,
    size: usize,
    align: usize,
    count: usize,
) -> Option<Seq<char>> {
    if align > CACHELINE_SIZE {
        Some("T over-aligned for NumaBuffer"@)
    } else if address as int % align as int != 0 {
        Some("NumaBuffer not aligned for T"@)
    } else if size * count > len {
        Some(
            "NumaBuffer too small: need "@ + number::dec(size as nat) + "*"@ + number::dec(
                count as nat,
            ) + " bytes, have "@ + number::dec(len as nat),
        )
    } else {
        None
    }
}

/// Whether a buffer at an address can be looked at as `count` values of a size
/// and an alignment, or why not.
pub fn check_view(len: usize, address: usize, size: usize, align: usize, count: usize) -> (r: Result<
    (),
    String,
>)
    requires
        align >= 1,
    ensures
        match view_fault(len, address, size, align, count) {
            None => r is Ok,
            Some(e) => r matches Err(t) && t@ == e,
        },
{
    if align > CACHELINE_SIZE {
        return Err("T over-aligned for NumaBuffer".to_owned());
    }
    if address % align != 0 {
        return Err("NumaBuffer not aligned for T".to_owned());
    }
    let fits: bool = match size.checked_mul(count) {
        Some(need) => need <= len,
        None => false,
    };
    if !fits {
        let mut e: String = "NumaBuffer too small: need ".to_owned();
        number::push_usize(&mut e, size);
        e.append("*");
        number::push_usize(&mut e, count);
        e.append(" bytes, have ");
        number::push_usize(&mut e, len);
        return Err(e);
    }
    Ok(())
}

// ---------------------------------------------------------------------------
// Laws
// ---------------------------------------------------------------------------

pub proof fn lemma_highest(v: Seq<usize>)
    ensures
        forall|i: int| 0 <= i < v.len() ==> #[trigger] v[i] <= highest(v),
        v.len() > 0 ==> v.contains(highest(v)),
    decreases v.len(),
{
    if v.len() > 0 {
        let d = v.drop_last();
        lemma_highest(d);
        assert forall|i: int| 0 <= i < v.len() implies #[trigger] v[i] <= highest(v) by {
            if i < d.len() {
                assert(d[i] <= highest(d));
            }
        }
        if v.last() >= highest(d) {
            assert(v[v.len() - 1] == highest(v));
        } else {
            let k = choose|k: int| 0 <= k < d.len() && d[k] == highest(d);
            assert(v[k] == highest(v));
        }
    }
}

/// Every online node, however the ids are spread, is below the number of
/// nodes, so a request for it alone is accepted.
pub proof fn law_online_nodes_covered(online: Seq<usize>, id: usize)
    requires
        count_fits(online),
        online.contains(id),
    ensures
        id < node_count(online),
        select::specs_choice(seq![number::dec(id as nat)], node_count(online) as usize) == Ok::<
            Seq<MemPlacement>,
            Seq<char>,
        >(seq![MemPlacement::Bound(id)]),
{
    lemma_highest(online);
    let k = choose|k: int| 0 <= k < online.len() && online[k] == id;
    assert(online[k] <= highest(online));
    select::law_node_selectable(id, node_count(online) as usize);
}

/// The number of nodes is one above the id of an online node, and no id
/// reaches it; it is 1 where no node is online.
pub proof fn law_node_count(online: Seq<usize>)
    ensures
        online.len() == 0 ==> node_count(online) == 1,
        online.len() > 0 ==> exists|i: int|
            0 <= i < online.len() && #[trigger] online[i] + 1 == node_count(online),
        forall|i: int| 0 <= i < online.len() ==> #[trigger] online[i] < node_count(online),
{
    lemma_highest(online);
    if online.len() > 0 {
        let k = choose|k: int| 0 <= k < online.len() && online[k] == highest(online);
        assert(online[k] + 1 == node_count(online));
    }
}

/// The files of a node are those of the first entry with its id.
pub proof fn law_files_of(nodes: Seq<NodeFiles>, node: usize, k: int)
    requires
        0 <= k < nodes.len(),
        nodes[k].node == node,
        forall|i: int| 0 <= i < k ==> (#[trigger] nodes[i]).node != node,
    ensures
        files_of(nodes, node) == Some(nodes[k]),
    decreases nodes.len(),
{
    let d = nodes.drop_last();
    if k < d.len() {
        assert forall|i: int| 0 <= i < k implies (#[trigger] d[i]).node != node by {
            assert(d[i] == nodes[i]);
        }
        law_files_of(d, node, k);
    } else {
        lemma_no_files(d, node);
    }
}

proof fn lemma_no_files(nodes: Seq<NodeFiles>, node: usize)
    requires
        forall|i: int| 0 <= i < nodes.len() ==> (#[trigger] nodes[i]).node != node,
    ensures
        files_of(nodes, node) is None,
    decreases nodes.len(),
{
    if nodes.len() > 0 {
        let d = nodes.drop_last();
        assert forall|i: int| 0 <= i < d.len() implies (#[trigger] d[i]).node != node by {
            assert(d[i] == nodes[i]);
        }
        lemma_no_files(d, node);
        assert(nodes[nodes.len() - 1].node != node);
    }
}

/// The lines of the nodes: one for each, in order, with its id, the number of
/// its cpus, the cpus, and its memory in GB to one decimal, where it is known.
pub proof fn law_node_lines(m: Arith, w: Notation, nodes: Seq<NodeInfo>, info: NodeInfo)
    ensures
        node_lines(m, w, Seq::<NodeInfo>::empty()).len() == 0,
        node_lines(m, w, nodes.push(info)) == node_lines(m, w, nodes) + ("  node "@ + number::dec(
            info.node as nat,
        ) + ": "@ + number::dec(info.cpus@.len()) + " cpus ["@ + ids::ranges_text(info.cpus@)
            + "], "@ + (if info.mem_bytes == 0 {
            "?"@
        } else {
            w(
                1,
                m(
                    Op::Quotient,
                    seq![
                        m(Op::Count(info.mem_bytes), seq![]),
                        Double { bits: 0x41d0_0000_0000_0000 },
                    ],
                ),
            )
        }) + " GB\n"@),
{
    let all = nodes.push(info);
    assert(all.drop_last() =~= nodes);
    reveal_strlit("? GB");
    reveal_strlit("?");
    reveal_strlit(" GB\n");
    reveal_strlit(" GB");
    reveal_strlit("\n");
    assert(" GB\n"@ =~= " GB"@ + "\n"@);
    assert("? GB"@ =~= "?"@ + " GB"@);
    assert(node_lines(m, w, all) =~= node_lines(m, w, nodes) + node_line(m, w, info));
    let head = "  node "@ + number::dec(info.node as nat) + ": "@ + number::dec(info.cpus@.len())
        + " cpus ["@ + ids::ranges_text(info.cpus@) + "], "@;
    let memory = if info.mem_bytes == 0 {
        "?"@
    } else {
        w(
            1,
            m(
                Op::Quotient,
                seq![m(Op::Count(info.mem_bytes), seq![]), Double { bits: 0x41d0_0000_0000_0000 }],
            ),
        )
    };
    assert(memory_text(m, w, info.mem_bytes) =~= memory + " GB"@);
    assert(node_line(m, w, info) =~= head + memory + " GB\n"@);
}

/// A core has the node of its cpu where memory can be placed, else node 0.
pub proof fn law_signed_node(sysfs: Sysfs, cpu: usize)
    requires
        syscall::cpu_node(sysfs, cpu) <= i32::MAX,
    ensures
        signed_node(true, sysfs, cpu) == syscall::cpu_node(sysfs, cpu),
        signed_node(false, sysfs, cpu) == 0,
{
}

/// A view of a buffer is refused for the first of three reasons that holds:
/// values that need more than the alignment of a cache line, an address that
/// does not suit them, or more bytes than there are.
pub proof fn law_view(len: usize, address: usize, size: usize, align: usize, count: usize)
    requires
        align >= 1,
    ensures
        view_fault(len, address, size, align, count) is None <==> align <= 64 && address as int
            % align as int == 0 && size * count <= len,
        align > 64 ==> view_fault(len, address, size, align, count) == Some(
            "T over-aligned for NumaBuffer"@,
        ),
        align <= 64 && address as int % align as int != 0 ==> view_fault(
            len,
            address,
            size,
            align,
            count,
        ) == Some("NumaBuffer not aligned for T"@),
        align <= 64 && address as int % align as int == 0 && size * count > len ==> view_fault(
            len,
            address,
            size,
            align,
            count,
        ) == Some(
            "NumaBuffer too small: need "@ + number::dec(size as nat) + "*"@ + number::dec(
                count as nat,
            ) + " bytes, have "@ + number::dec(len as nat),
        ),
{
}

/// The ids in a file are those that it lists, rising; there are none where the
/// file could not be read.
pub proof fn law_ids_read(file: Option<String>, id: usize)
    ensures
        file is None ==> ids_in(file).len() == 0,
        file matches Some(s) ==> ids::ascending(ids_in(file)) && (ids_in(file).contains(id)
            <==> ids::listed(s@).contains(id)),
{
    if let Some(s) = file {
        ids::law_sorted_set(ids::listed(s@));
    }
}

/// The online nodes are those that the list names, and the cpus of a node those
/// that its own list names.
pub proof fn law_lists(sysfs: Sysfs, node: usize)
    ensures
        sysfs.online_ids() == ids_in(sysfs.online),
        files_of(sysfs.nodes@, node) matches Some(f) ==> sysfs.cpus_of(node) == ids_in(f.cpulist),
        files_of(sysfs.nodes@, node) is None ==> sysfs.cpus_of(node).len() == 0,
        syscall::has_numa(sysfs) <==> sysfs.root_is_dir && exists|n: usize| #[trigger]
            sysfs.online_ids().contains(n),
{
    let online = sysfs.online_ids();
    if online.len() > 0 {
        assert(online.contains(online[0]));
    }
}

/// A topology has one entry for each online node, in order, with the node's own
/// cpus and memory.
pub proof fn law_topology(topology: Topology, sysfs: Sysfs, i: int)
    requires
        syscall::maps_out(topology, sysfs, sysfs.online_ids()),
        0 <= i < topology.nodes@.len(),
    ensures
        topology.nodes@.len() == sysfs.online_ids().len(),
        topology.nodes@[i].node == sysfs.online_ids()[i],
        topology.nodes@[i].cpus@ == sysfs.cpus_of(topology.nodes@[i].node),
        topology.nodes@[i].mem_bytes == syscall::node_bytes(sysfs, topology.nodes@[i].node),
{
    assert(syscall::describes(topology.nodes@[i], sysfs, sysfs.online_ids()[i]));
}

/// What is said about NUMA: of a single domain only that, whatever else is
/// known; of a host whose memory cannot be placed nothing of the domains; else
/// the nodes and the domains under test, and behind that a warning just where
/// no domain was asked for.
pub proof fn law_numa_text(
    m: Arith,
    w: Notation,
    num_nodes: usize,
    nodes: Seq<NodeInfo>,
    placements: Seq<MemPlacement>,
    feature: bool,
    requested: bool,
)
    ensures
        num_nodes <= 1 ==> numa_text(m, w, feature, num_nodes, nodes, placements, requested)
            == "NUMA: not detected (single domain)\n"@,
        num_nodes > 1 ==> numa_text(m, w, false, num_nodes, nodes, placements, requested)
            == "NUMA: "@ + number::dec(num_nodes as nat)
            + " nodes detected; binary built without the `numa` feature\n"@ + style::painted(
            Tint::YellowBold,
            "WARN: "@ + number::dec(num_nodes as nat)
                + " NUMA nodes detected but this binary was not built with the 'numa' feature. Rebuild with `cargo build --release --features numa` (Linux only) and pass --numa <node(s)> to pin placement. Running with kernel-default first-touch placement, which may vary run-to-run."@,
        ) + "\n"@,
        num_nodes > 1 ==> numa_text(m, w, true, num_nodes, nodes, placements, true) == "NUMA: "@
            + number::dec(nodes.len()) + " node(s)\n"@ + node_lines(m, w, nodes)
            + "  Memory domains under test: "@ + select::domains_text(placements) + "\n"@,
        num_nodes > 1 ==> numa_text(m, w, true, num_nodes, nodes, placements, false) == numa_text(
            m,
            w,
            true,
            num_nodes,
            nodes,
            placements,
            true,
        ) + (style::painted(
            Tint::YellowBold,
            "WARN: "@ + number::dec(num_nodes as nat)
                + " NUMA nodes detected but --numa was not given. The shared cache lines use kernel-default first-touch placement, so results may vary run-to-run. Pass --numa <node(s)> to pin placement."@,
        ) + "\n"@),
{
    reveal_strlit("");
    if num_nodes > 1 {
        let said = "NUMA: "@ + number::dec(nodes.len()) + " node(s)\n"@ + node_lines(m, w, nodes)
            + "  Memory domains under test: "@ + select::domains_text(placements) + "\n"@;
        assert(numa_text(m, w, true, num_nodes, nodes, placements, true) =~= said);
        assert(numa_text(m, w, true, num_nodes, nodes, placements, false) =~= said
            + unpinned_text(num_nodes));
    }
}

} // verus!
