//! The backend for a host with NUMA: topology from sysfs, memory placed with
//! `mmap`, `mbind` and `move_pages`.

use crate::number;
use crate::numa;
use crate::numa::{MemPlacement, NodeInfo, Sysfs, Topology};
use crate::text;
use std::collections::HashMap;
use vstd::prelude::*;

verus! {

// ---------------------------------------------------------------------------
// Discovery
// ---------------------------------------------------------------------------

/// The startup hook. It does nothing: a build with this backend must also run
/// on a host without NUMA, so there is no guard here, and the topology is
/// looked at when it is needed.
pub fn init() {
}

/// Whether the host shows a NUMA hierarchy: its directory, and a node online.
pub open spec fn has_numa(sysfs: Sysfs) -> bool {
    sysfs.root_is_dir && sysfs.online_ids().len() > 0
}

/// Whether the host shows a NUMA hierarchy.
pub fn numa_available_sysfs(sysfs: &Sysfs) -> (r: bool)
    ensures
        r == has_numa(*sysfs),
{
    let online: Vec<usize> = numa::online_nodes(sysfs);
    sysfs.root_is_dir && online.len() > 0
}

/// Whether NUMA can be used.
pub fn available(sysfs: &Sysfs) -> (r: bool)
    ensures
        r == has_numa(*sysfs),
{
    numa_available_sysfs(sysfs)
}

/// Whether `node` is among the online nodes.
pub fn node_is_online(online: &[usize], node: usize) -> (r: bool)
    ensures
        r == online@.contains(node),
{
    let mut i: usize = 0;
    while i < online.len()
        invariant
            i <= online@.len(),
            forall|j: int| 0 <= j < i ==> online@[j] != node,
        decreases online@.len() - i,
    {
        if online[i] == node {
            return true;
        }
        i = i + 1;
    }
    false
}

/// The last of the nodes that lists the cpu.
pub open spec fn owner(sysfs: Sysfs, nodes: Seq<usize>, cpu: usize) -> Option<usize>
    decreases nodes.len(),
{
    if nodes.len() == 0 {
        None
    } else if sysfs.cpus_of(nodes.last()).contains(cpu) {
        Some(nodes.last())
    } else {
        owner(sysfs, nodes.drop_last(), cpu)
    }
}

/// The node of a cpu: the last online node that lists it, or node 0 where none does.
pub open spec fn cpu_node(sysfs: Sysfs, cpu: usize) -> usize {
    match owner(sysfs, sysfs.online_ids(), cpu) {
        Some(node) => node,
        None => 0,
    }
}

/// What a map holds for a key.
pub open spec fn entry(m: Map<usize, usize>, k: usize) -> Option<usize> {
    if m.contains_key(k) {
        Some(m[k])
    } else {
        None
    }
}

/// The node of each cpu that an online node lists.
pub fn cpu_node_map(sysfs: &Sysfs) -> (r: HashMap<usize, usize>)
    ensures
        forall|cpu: usize| #[trigger]
            entry(r@, cpu) == owner(*sysfs, sysfs.online_ids(), cpu),
{
    broadcast use vstd::std_specs::hash::group_hash_axioms;

    let online: Vec<usize> = numa::online_nodes(sysfs);
    let mut map: HashMap<usize, usize> = HashMap::new();
    let mut i: usize = 0;
    while i < online.len()
        invariant
            i <= online@.len(),
            online@ == sysfs.online_ids(),
            forall|cpu: usize| #[trigger]
                entry(map@, cpu) == owner(*sysfs, online@.take(i as int), cpu),
        decreases online@.len() - i,
    {
        let node: usize = online[i];
        let cpus: Vec<usize> = sysfs.cpus(node);
        let ghost before = online@.take(i as int);
        let ghost after = online@.take(i + 1);
        assert(after.drop_last() == before);
        assert(after.last() == node);
        let mut j: usize = 0;
        while j < cpus.len()
            invariant
                j <= cpus@.len(),
                forall|cpu: usize| #[trigger]
                    entry(map@, cpu) == if cpus@.take(j as int).contains(cpu) {
                        Some(node)
                    } else {
                        owner(*sysfs, before, cpu)
                    },
            decreases cpus@.len() - j,
        {
            let c: usize = cpus[j];
            let ghost old_map = map@;
            map.insert(c, node);
            proof {
                let t = cpus@.take(j as int);
                let u = cpus@.take(j + 1);
                assert(u == t.push(c));
                assert forall|cpu: usize| #[trigger]
                    entry(map@, cpu) == if u.contains(cpu) {
                        Some(node)
                    } else {
                        owner(*sysfs, before, cpu)
                    } by {
                    assert(entry(old_map, cpu) == if t.contains(cpu) {
                        Some(node)
                    } else {
                        owner(*sysfs, before, cpu)
                    });
                    assert(u[j as int] == c);
                    if t.contains(cpu) {
                        let k = choose|k: int| 0 <= k < t.len() && t[k] == cpu;
                        assert(u[k] == cpu);
                    }
                }
            }
            j = j + 1;
        }
        proof {
            assert(cpus@.take(j as int) == cpus@);
            assert forall|cpu: usize| #[trigger] entry(map@, cpu) == owner(*sysfs, after, cpu) by {
            }
        }
        i = i + 1;
    }
    assert(online@.take(i as int) == online@);
    map
}

/// The node of a cpu; 0 for a cpu that no online node lists.
pub fn node_of_cpu(sysfs: &Sysfs, cpu: usize) -> (r: usize)
    ensures
        r == cpu_node(*sysfs, cpu),
{
    let map: HashMap<usize, usize> = cpu_node_map(sysfs);
    mapped_node(&map, cpu)
}

/// What a map holds for a cpu, or node 0.
pub fn mapped_node(map: &HashMap<usize, usize>, cpu: usize) -> (r: usize)
    ensures
        r == match entry(map@, cpu) {
            Some(node) => node,
            None => 0,
        },
{
    broadcast use vstd::std_specs::hash::group_hash_axioms;

    match map.get(&cpu) {
        Some(node) => *node,
        None => 0,
    }
}

/// The memory that a line of a node's `meminfo` states, in kB: the word before
/// the last one of a line with `MemTotal:`, where it is a number.
pub open spec fn line_kb(line: Seq<char>) -> Option<u64> {
    let w = text::words(line);
    if text::has_text(line, "MemTotal:"@) && w.len() >= 2 {
        number::u64_of(w[w.len() - 2])
    } else {
        None
    }
}

/// The memory that the first line to state any states, in kB.
pub open spec fn lines_kb(lines: Seq<Seq<char>>) -> Option<u64>
    decreases lines.len(),
{
    if lines.len() == 0 {
        None
    } else {
        match lines_kb(lines.drop_last()) {
            Some(kb) => Some(kb),
            None => line_kb(lines.last()),
        }
    }
}

/// The total memory that a node's `meminfo` states, in kB. (A carriage return
/// before the end of a line is white space, so it is part of no word.)
pub open spec fn total_kb(meminfo: Seq<char>) -> Option<u64> {
    lines_kb(text::pieces(meminfo, '\n'))
}

/// The total memory of a node in bytes: 0 where it is not stated.
pub open spec fn node_bytes(sysfs: Sysfs, node: usize) -> nat {
    match numa::files_of(sysfs.nodes@, node) {
        Some(f) => match f.meminfo {
            Some(s) => match total_kb(s@) {
                Some(kb) => (kb * 1024) as nat,
                None => 0,
            },
            None => 0,
        },
        None => 0,
    }
}

/// Whether the memory of each node in bytes is a `u64`.
pub open spec fn bytes_fit(sysfs: Sysfs, nodes: Seq<usize>) -> bool {
    forall|i: int| 0 <= i < nodes.len() ==> node_bytes(sysfs, #[trigger] nodes[i]) <= u64::MAX
}

proof fn lemma_lines_kb_some(lines: Seq<Seq<char>>, n: int)
    requires
        0 <= n <= lines.len(),
        lines_kb(lines.take(n)) is Some,
    ensures
        lines_kb(lines) == lines_kb(lines.take(n)),
    decreases lines.len(),
{
    if n < lines.len() {
        assert(lines.drop_last().take(n) == lines.take(n));
        lemma_lines_kb_some(lines.drop_last(), n);
    } else {
        assert(lines.take(n) == lines);
    }
}

/// The memory that a line of a node's `meminfo` states, in kB.
fn read_line_kb(line: &str) -> (r: Option<u64>)
    ensures
        r == line_kb(line@),
{
    if !text::contains_text(line, "MemTotal:") {
        return None;
    }
    match text::last_word(line) {
        None => None,
        Some((rest, _)) => match text::last_word(rest) {
            None => None,
            Some((_, kb)) => number::parse_u64(kb),
        },
    }
}

/// The total memory that a node's `meminfo` states, in kB.
pub fn meminfo_kb(meminfo: &str) -> (r: Option<u64>)
    ensures
        r == total_kb(meminfo@),
{
    let lines: Vec<&str> = text::split(meminfo, '\n');
    let ghost all = text::views(lines@);
    let mut i: usize = 0;
    while i < lines.len()
        invariant
            i <= lines@.len(),
            all == text::views(lines@),
            all == text::pieces(meminfo@, '\n'),
            lines_kb(all.take(i as int)) is None,
        decreases lines@.len() - i,
    {
        proof {
            assert(all.take(i + 1).drop_last() == all.take(i as int));
            assert(all.take(i + 1).last() == lines@[i as int]@);
        }
        let kb: Option<u64> = read_line_kb(lines[i]);
        if kb.is_some() {
            proof {
                lemma_lines_kb_some(all, i + 1);
            }
            return kb;
        }
        i = i + 1;
    }
    assert(all.take(i as int) == all);
    None
}

/// The memory of a node in kB, where it is stated.
fn node_kb(sysfs: &Sysfs, node: usize) -> (r: Option<u64>)
    ensures
        node_bytes(*sysfs, node) == match r {
            Some(kb) => (kb * 1024) as nat,
            None => 0,
        },
{
    match sysfs.files(node) {
        Some(f) => match &f.meminfo {
            Some(s) => meminfo_kb(s.as_str()),
            None => None,
        },
        None => None,
    }
}

/// Whether `info` describes the node.
pub open spec fn describes(info: NodeInfo, sysfs: Sysfs, node: usize) -> bool {
    &&& info.node == node
    &&& info.cpus@ == sysfs.cpus_of(node)
    &&& info.mem_bytes == node_bytes(sysfs, node)
}

/// The cpus and the memory of a node.
pub fn real_node_info(sysfs: &Sysfs, node: usize) -> (r: NodeInfo)
    requires
        node_bytes(*sysfs, node) <= u64::MAX,
    ensures
        describes(r, *sysfs, node),
{
    let cpus: Vec<usize> = sysfs.cpus(node);
    let mem_bytes: u64 = match node_kb(sysfs, node) {
        Some(kb) => kb * 1024,
        None => 0,
    };
    NodeInfo { node, cpus, mem_bytes }
}

/// Whether the memory of each online node in bytes is a `u64`.
pub fn mem_bytes_fit(sysfs: &Sysfs) -> (r: bool)
    ensures
        r == bytes_fit(*sysfs, sysfs.online_ids()),
{
    let online: Vec<usize> = numa::online_nodes(sysfs);
    let mut i: usize = 0;
    while i < online.len()
        invariant
            i <= online@.len(),
            online@ == sysfs.online_ids(),
            forall|j: int| 0 <= j < i ==> node_bytes(*sysfs, #[trigger] online@[j]) <= u64::MAX,
        decreases online@.len() - i,
    {
        if let Some(kb) = node_kb(sysfs, online[i]) {
            if kb > u64::MAX / 1024 {
                assert(node_bytes(*sysfs, online@[i as int]) > u64::MAX);
                return false;
            }
        }
        i = i + 1;
    }
    true
}

/// Whether `topology` describes the nodes, in order.
pub open spec fn maps_out(topology: Topology, sysfs: Sysfs, nodes: Seq<usize>) -> bool {
    &&& topology.nodes@.len() == nodes.len()
    &&& forall|i: int|
        0 <= i < nodes.len() ==> describes(#[trigger] topology.nodes@[i], sysfs, nodes[i])
}

/// The online nodes with their cpus and memory.
pub fn discover(sysfs: &Sysfs) -> (r: Topology)
    requires
        bytes_fit(*sysfs, sysfs.online_ids()),
    ensures
        maps_out(r, *sysfs, sysfs.online_ids()),
{
    let online: Vec<usize> = numa::online_nodes(sysfs);
    let mut nodes: Vec<NodeInfo> = Vec::new();
    let mut i: usize = 0;
    while i < online.len()
        invariant
            i <= online@.len(),
            online@ == sysfs.online_ids(),
            bytes_fit(*sysfs, online@),
            nodes@.len() == i,
            forall|j: int| 0 <= j < i ==> describes(#[trigger] nodes@[j], *sysfs, online@[j]),
        decreases online@.len() - i,
    {
        nodes.push(real_node_info(sysfs, online[i]));
        i = i + 1;
    }
    Topology { nodes }
}

// ---------------------------------------------------------------------------
// Memory
// ---------------------------------------------------------------------------

/// The page size, from what `sysconf` says; 4096 where it says nothing usable.
pub fn page_size(sysconf: isize) -> (r: usize)
    ensures
        r == (if sysconf <= 0 {
            4096
        } else {
            sysconf as int
        }),
{
    if sysconf <= 0 {
        4096
    } else {
        sysconf as usize
    }
}

/// How many pages hold so many bytes.
pub open spec fn pages(bytes: nat, page: nat) -> nat {
    if bytes % page == 0 {
        bytes / page
    } else {
        bytes / page + 1
    }
}

/// The bytes of whole pages that hold so many bytes.
pub open spec fn whole_pages(bytes: nat, page: nat) -> nat {
    pages(bytes, page) * page
}

/// A shared-memory buffer on a NUMA node: whole pages, all zero.
#[derive(Clone, Copy, Debug, PartialEq, Eq, Structural)]
pub struct NumaBuffer {
    /// The bytes of the buffer.
    pub len: usize,
    /// The node that the pages landed on, or -1 where it is unverified.
    pub node: i32,
    /// Whether the pages landed on more than one node.
    pub spanned: bool,
}

/// What the kernel is asked for next.
#[derive(Clone, Copy, Debug, PartialEq, Eq, Structural)]
pub enum Stage {
    /// To map the buffer.
    Mapping,
    /// To bind its pages to the node.
    Binding,
    /// To touch its pages, so that they are placed.
    Touching,
    /// To say where its pages landed.
    Querying,
}

/// A buffer that is being allocated.
#[derive(Clone, Copy, Debug, PartialEq, Eq, Structural)]
pub struct Pending {
    pub placement: MemPlacement,
    /// The bytes of the buffer.
    pub len: usize,
    /// The bytes of a page.
    pub page: usize,
    pub stage: Stage,
}

/// What the kernel has answered.
pub enum Answer {
    /// Whether the buffer was mapped.
    Mapped(bool),
    /// What `mbind` returned, and the last error.
    Bound(i64, String),
    /// The pages were touched.
    Touched,
    /// What `move_pages` returned, the last error, and the status of each page.
    Queried(i64, String, Vec<i32>),
}

/// What became of an allocation.
pub enum Progress {
    /// The kernel is asked for what the stage of the buffer says.
    Ask(Pending),
    /// The buffer is there.
    Done(NumaBuffer),
    /// There is no buffer; what was mapped has to be unmapped.
    Failed(String, bool),
}

/// What became of an allocation, as a value.
pub enum ProgressModel {
    Ask(Pending),
    Done(NumaBuffer),
    Failed(Seq<char>, bool),
}

impl Progress {
    /// What became of the allocation, as a value.
    pub open spec fn model(self) -> ProgressModel {
        match self {
            Progress::Ask(p) => ProgressModel::Ask(p),
            Progress::Done(b) => ProgressModel::Done(b),
            Progress::Failed(e, unmap) => ProgressModel::Failed(e@, unmap),
        }
    }
}

/// A placement, as it is shown for debugging.
pub open spec fn placement_text(p: MemPlacement) -> Seq<char> {
    match p {
        MemPlacement::Default => "Default"@,
        MemPlacement::Bound(node) => "Bound("@ + number::dec(node as nat) + ")"@,
    }
}

/// The statuses of the pages, as they are shown for debugging.
pub open spec fn status_texts(status: Seq<i32>) -> Seq<Seq<char>> {
    status.map_values(|s: i32| number::dec_int(s as int))
}

/// Whether the node that a placement asks for, if it asks for one, is online.
pub open spec fn can_be_placed(placement: MemPlacement, online: Seq<usize>) -> bool {
    placement matches MemPlacement::Bound(node) ==> online.contains(node)
}

/// Whether bytes can be rounded up to whole pages that a `usize` holds.
pub open spec fn pages_fit(bytes: nat, page: usize) -> bool {
    page >= 1 && whole_pages(bytes, page as nat) <= usize::MAX
}

/// Whether a buffer can be asked for: a cache line at least, a number of bytes
/// that a `usize` holds, and the same of its pages where they will be mapped.
pub open spec fn can_ask(
    placement: MemPlacement,
    n_cachelines: usize,
    online: Seq<usize>,
    page: usize,
) -> bool {
    &&& n_cachelines >= 1
    &&& n_cachelines * numa::CACHELINE_SIZE <= usize::MAX
    &&& can_be_placed(placement, online) ==> pages_fit(
        (n_cachelines * numa::CACHELINE_SIZE) as nat,
        page,
    )
}

/// How an allocation begins: a node that is not online is refused, else the
/// buffer is to be mapped.
pub open spec fn begun(placement: MemPlacement, bytes: nat, online: Seq<usize>, page: usize) -> ProgressModel {
    match placement {
        MemPlacement::Bound(node) if !online.contains(node) => ProgressModel::Failed(
            "NUMA node "@ + number::dec(node as nat) + " is not online on this host"@,
            false,
        ),
        _ => ProgressModel::Ask(
            Pending {
                placement,
                len: whole_pages(bytes, page as nat) as usize,
                page,
                stage: Stage::Mapping,
            },
        ),
    }
}

/// Whether all pages are on the node.
pub open spec fn all_on(status: Seq<i32>, node: usize) -> bool {
    forall|i: int| 0 <= i < status.len() ==> #[trigger] status[i] == node
}

/// The first node that a page is on; -1 where none is known.
pub open spec fn first_node(status: Seq<i32>) -> i32
    decreases status.len(),
{
    if status.len() == 0 {
        -1i32
    } else if first_node(status.drop_last()) >= 0 {
        first_node(status.drop_last())
    } else if status.last() >= 0 {
        status.last()
    } else {
        -1i32
    }
}

/// Whether two pages are on different nodes.
pub open spec fn on_two_nodes(status: Seq<i32>) -> bool {
    exists|i: int, j: int|
        0 <= i < status.len() && 0 <= j < status.len() && #[trigger] status[i] >= 0
            && #[trigger] status[j] >= 0 && status[i] != status[j]
}

/// What becomes of the buffer once the kernel was asked where its pages are.
/// A buffer that is bound must be on its node, every page of it, or it fails;
/// the kernel's own placement is taken as it is, known or not.
pub open spec fn queried(p: Pending, rc: i64, error: Seq<char>, status: Seq<i32>) -> ProgressModel {
    match p.placement {
        MemPlacement::Bound(node) => if rc == -1 {
            ProgressModel::Failed(
                "move_pages query failed: "@ + error + "; cannot verify placement on node "@
                    + number::dec(node as nat),
                true,
            )
        } else if all_on(status, node) {
            ProgressModel::Done(NumaBuffer { len: p.len, node: node as i32, spanned: false })
        } else {
            ProgressModel::Failed(
                "buffer requested on node "@ + number::dec(node as nat)
                    + " but did not land there (move_pages status="@ + text::listing(
                    status_texts(status),
                ) + ")"@,
                true,
            )
        },
        MemPlacement::Default => if rc == -1 {
            ProgressModel::Done(NumaBuffer { len: p.len, node: -1i32, spanned: false })
        } else {
            ProgressModel::Done(
                NumaBuffer {
                    len: p.len,
                    node: first_node(status),
                    spanned: on_two_nodes(status),
                },
            )
        },
    }
}

/// What becomes of an allocation after an answer.
pub open spec fn continued(p: Pending, answer: Answer) -> ProgressModel {
    match answer {
        Answer::Mapped(ok) => if !ok {
            ProgressModel::Failed(
                "mmap of "@ + number::dec(p.len as nat) + " bytes failed (placement "@
                    + placement_text(p.placement) + ")"@,
                false,
            )
        } else {
            ProgressModel::Ask(
                Pending {
                    stage: match p.placement {
                        MemPlacement::Bound(_) => Stage::Binding,
                        MemPlacement::Default => Stage::Touching,
                    },
                    ..p
                },
            )
        },
        Answer::Bound(rc, error) => match p.placement {
            MemPlacement::Bound(node) if rc == -1 => ProgressModel::Failed(
                "mbind(MPOL_BIND, node "@ + number::dec(node as nat) + ") failed: "@ + error@,
                true,
            ),
            _ => ProgressModel::Ask(Pending { stage: Stage::Touching, ..p }),
        },
        Answer::Touched => ProgressModel::Ask(Pending { stage: Stage::Querying, ..p }),
        Answer::Queried(rc, error, status) => queried(p, rc, error@, status@),
    }
}

/// Whether the answer is one to what the kernel was asked for: a status for
/// every page where the query succeeded.
pub open spec fn answers_stage(p: Pending, answer: Answer) -> bool {
    match p.stage {
        Stage::Mapping => answer is Mapped,
        Stage::Binding => answer is Bound && p.placement is Bound,
        Stage::Touching => answer is Touched,
        Stage::Querying => answer matches Answer::Queried(rc, _, status) && (rc != -1
            ==> status@.len() == p.len as int / p.page as int),
    }
}

/// Whether a buffer that is being allocated is made of pages.
pub open spec fn paged(p: Pending) -> bool {
    &&& p.page >= 1
    &&& p.len >= p.page
    &&& p.len as int % p.page as int == 0
}

/// Whole pages: enough, no page too many, and at least one page for at least one byte.
pub proof fn law_whole_pages(bytes: nat, page: nat)
    requires
        page >= 1,
    ensures
        bytes <= whole_pages(bytes, page) < bytes + page,
        whole_pages(bytes, page) % page == 0,
        whole_pages(bytes, page) / page == pages(bytes, page),
        bytes >= 1 ==> whole_pages(bytes, page) >= page,
{
    let n = pages(bytes, page);
    vstd::arithmetic::div_mod::lemma_fundamental_div_mod(bytes as int, page as int);
    vstd::arithmetic::div_mod::lemma_mod_multiples_basic(n as int, page as int);
    vstd::arithmetic::div_mod::lemma_div_multiples_vanish(n as int, page as int);
    vstd::arithmetic::div_mod::lemma_mod_bound(bytes as int, page as int);
    let q = (bytes / page) as int;
    assert(page * q == q * page && (q + 1) * page == q * page + page) by (nonlinear_arith);
    assert(n * page == page * n) by (nonlinear_arith);
    if bytes >= 1 {
        assert(n >= 1) by {
            if q == 0 {
                assert(bytes % page == bytes);
            }
        }
        assert(n * page >= page) by (nonlinear_arith)
            requires
                n >= 1,
        ;
    }
}

/// Whether a buffer of so many cache lines can be asked for.
pub fn alloc_fits(
    placement: MemPlacement,
    n_cachelines: usize,
    online: &[usize],
    page: usize,
) -> (r: bool)
    ensures
        r == can_ask(placement, n_cachelines, online@, page),
{
    if n_cachelines < 1 || n_cachelines > usize::MAX / numa::CACHELINE_SIZE {
        return false;
    }
    if let MemPlacement::Bound(node) = placement {
        if !node_is_online(online, node) {
            return true;
        }
    }
    if page < 1 {
        return false;
    }
    let bytes: usize = n_cachelines * numa::CACHELINE_SIZE;
    let rest: usize = bytes % page;
    proof {
        let n = (bytes / page) as nat;
        let size = page as nat;
        vstd::arithmetic::div_mod::lemma_fundamental_div_mod(bytes as int, page as int);
        assert((n + 1) * size == n * size + size && n * size == size * n) by (nonlinear_arith);
    }
    rest == 0 || page - rest <= usize::MAX - bytes
}

/// The statuses of the pages, as they are shown for debugging.
fn write_status(status: &[i32]) -> (r: String)
    ensures
        r@ == text::listing(status_texts(status@)),
{
    let mut parts: Vec<String> = Vec::new();
    let mut i: usize = 0;
    assert(text::string_views(parts@) =~= status_texts(status@.take(0)));
    while i < status.len()
        invariant
            i <= status@.len(),
            text::string_views(parts@) == status_texts(status@.take(i as int)),
        decreases status@.len() - i,
    {
        let ghost done = parts@;
        let mut part: String = String::new();
        number::push_i32(&mut part, status[i]);
        assert(part@ =~= number::dec_int(status@[i as int] as int));
        proof {
            text::lemma_string_views_push(done, part);
            assert(status_texts(status@.take(i + 1)) =~= status_texts(
                status@.take(i as int),
            ).push(part@));
        }
        parts.push(part);
        i = i + 1;
    }
    assert(status@.take(i as int) == status@);
    text::list_text(&parts)
}

/// Whether all pages are on the node.
fn landed_on(status: &[i32], node: usize) -> (r: bool)
    ensures
        r == all_on(status@, node),
{
    let mut i: usize = 0;
    while i < status.len()
        invariant
            i <= status@.len(),
            forall|j: int| 0 <= j < i ==> #[trigger] status@[j] == node,
        decreases status@.len() - i,
    {
        if status[i] < 0 || status[i] as usize != node {
            assert(status@[i as int] != node);
            return false;
        }
        i = i + 1;
    }
    true
}

proof fn lemma_first_node(status: Seq<i32>)
    ensures
        first_node(status) >= 0 ==> status.contains(first_node(status)),
        first_node(status) < 0 ==> first_node(status) == -1 && forall|i: int|
            0 <= i < status.len() ==> #[trigger] status[i] < 0,
    decreases status.len(),
{
    if status.len() > 0 {
        let d = status.drop_last();
        lemma_first_node(d);
        if first_node(d) >= 0 {
            let k = choose|k: int| 0 <= k < d.len() && d[k] == first_node(d);
            assert(status[k] == first_node(d));
        } else if status.last() >= 0 {
            assert(status[status.len() - 1] == status.last());
        } else {
            assert forall|i: int| 0 <= i < status.len() implies #[trigger] status[i] < 0 by {
                if i < d.len() {
                    assert(d[i] < 0);
                }
            }
        }
    }
}

/// Where the pages landed under the kernel's own placement.
fn find_nodes(status: &[i32]) -> (r: (i32, bool))
    ensures
        r == (first_node(status@), on_two_nodes(status@)),
{
    let mut first: i32 = -1;
    let mut i: usize = 0;
    while i < status.len()
        invariant
            i <= status@.len(),
            first == first_node(status@.take(i as int)),
        decreases status@.len() - i,
    {
        proof {
            assert(status@.take(i + 1).drop_last() == status@.take(i as int));
            lemma_first_node(status@.take(i as int));
        }
        if first < 0 && status[i] >= 0 {
            first = status[i];
        }
        i = i + 1;
    }
    proof {
        assert(status@.take(i as int) == status@);
        lemma_first_node(status@);
    }
    let mut spanned: bool = false;
    let mut j: usize = 0;
    while j < status.len()
        invariant
            j <= status@.len(),
            first == first_node(status@),
            spanned == (exists|k: int|
                0 <= k < j && #[trigger] status@[k] >= 0 && status@[k] != first),
        decreases status@.len() - j,
    {
        if status[j] >= 0 && status[j] != first {
            spanned = true;
        }
        j = j + 1;
    }
    proof {
        if spanned {
            let k = choose|k: int|
                0 <= k < j && #[trigger] status@[k] >= 0 && status@[k] != first;
            if first < 0 {
                assert(status@[k] < 0);
            } else {
                let a = choose|a: int| 0 <= a < status@.len() && status@[a] == first;
                assert(status@[a] >= 0 && status@[k] >= 0);
            }
        }
        if on_two_nodes(status@) {
            let (a, b) = choose|a: int, b: int|
                0 <= a < status@.len() && 0 <= b < status@.len() && #[trigger] status@[a] >= 0
                    && #[trigger] status@[b] >= 0 && status@[a] != status@[b];
            if status@[a] == first {
                assert(status@[b] != first);
            }
        }
    }
    (first, spanned)
}

impl NumaBuffer {
    /// Begins to allocate cache lines. A node to bind to must be online.
    pub fn allocate(
        placement: MemPlacement,
        n_cachelines: usize,
        online: &[usize],
        page: usize,
    ) -> (r: Progress)
        requires
            can_ask(placement, n_cachelines, online@, page),
        ensures
            r.model() == begun(
                placement,
                (n_cachelines * numa::CACHELINE_SIZE) as nat,
                online@,
                page,
            ),
            r matches Progress::Ask(p) ==> paged(p),
    {
        NumaBuffer::alloc_real(placement, n_cachelines * numa::CACHELINE_SIZE, online, page)
    }

    /// Begins to allocate bytes, in whole pages.
    pub fn alloc_real(
        placement: MemPlacement,
        want: usize,
        online: &[usize],
        page: usize,
    ) -> (r: Progress)
        requires
            want >= 1,
            can_be_placed(placement, online@) ==> pages_fit(want as nat, page),
        ensures
            r.model() == begun(placement, want as nat, online@, page),
            r matches Progress::Ask(p) ==> paged(p),
    {
        if let MemPlacement::Bound(node) = placement {
            if !node_is_online(online, node) {
                let mut e: String = "NUMA node ".to_owned();
                number::push_usize(&mut e, node);
                e.append(" is not online on this host");
                return Progress::Failed(e, false);
            }
        }
        proof {
            law_whole_pages(want as nat, page as nat);
            let n = (want / page) as nat;
            let size = page as nat;
            vstd::arithmetic::div_mod::lemma_fundamental_div_mod(want as int, page as int);
            assert((n + 1) * size == n * size + size && n * size == size * n) by (nonlinear_arith);
        }
        let rest: usize = want % page;
        let len: usize = if rest == 0 {
            want
        } else {
            want + (page - rest)
        };
        assert(len == whole_pages(want as nat, page as nat));
        Progress::Ask(Pending { placement, len, page, stage: Stage::Mapping })
    }

    /// Goes on with an allocation after the kernel has answered.
    pub fn resume(p: Pending, answer: Answer) -> (r: Progress)
        requires
            paged(p),
            answers_stage(p, answer),
        ensures
            r.model() == continued(p, answer),
            r matches Progress::Ask(q) ==> paged(q),
    {
        match answer {
            Answer::Mapped(ok) => {
                if !ok {
                    let mut e: String = "mmap of ".to_owned();
                    number::push_usize(&mut e, p.len);
                    e.append(" bytes failed (placement ");
                    let shown: String = fmt_placement(p.placement);
                    e.append(shown.as_str());
                    e.append(")");
                    return Progress::Failed(e, false);
                }
                let stage: Stage = match p.placement {
                    MemPlacement::Bound(_) => Stage::Binding,
                    MemPlacement::Default => Stage::Touching,
                };
                Progress::Ask(
                    Pending { placement: p.placement, len: p.len, page: p.page, stage },
                )
            },
            Answer::Bound(rc, error) => {
                if let MemPlacement::Bound(node) = p.placement {
                    if rc == -1 {
                        let mut e: String = "mbind(MPOL_BIND, node ".to_owned();
                        number::push_usize(&mut e, node);
                        e.append(") failed: ");
                        e.append(error.as_str());
                        return Progress::Failed(e, true);
                    }
                }
                Progress::Ask(
                    Pending {
                        placement: p.placement,
                        len: p.len,
                        page: p.page,
                        stage: Stage::Touching,
                    },
                )
            },
            Answer::Touched => Progress::Ask(
                Pending {
                    placement: p.placement,
                    len: p.len,
                    page: p.page,
                    stage: Stage::Querying,
                },
            ),
            Answer::Queried(rc, error, status) => NumaBuffer::resolve(p, rc, error, status),
        }
    }

    /// Says what became of a buffer once the kernel was asked where its pages are.
    fn resolve(p: Pending, rc: i64, error: String, status: Vec<i32>) -> (r: Progress)
        ensures
            r.model() == queried(p, rc, error@, status@),
            !(r is Ask),
    {
        match p.placement {
            MemPlacement::Bound(node) => {
                if rc == -1 {
                    let mut e: String = "move_pages query failed: ".to_owned();
                    e.append(error.as_str());
                    e.append("; cannot verify placement on node ");
                    number::push_usize(&mut e, node);
                    Progress::Failed(e, true)
                } else if landed_on(status.as_slice(), node) {
                    Progress::Done(NumaBuffer { len: p.len, node: node as i32, spanned: false })
                } else {
                    let mut e: String = "buffer requested on node ".to_owned();
                    number::push_usize(&mut e, node);
                    e.append(" but did not land there (move_pages status=");
                    let shown: String = write_status(status.as_slice());
                    e.append(shown.as_str());
                    e.append(")");
                    Progress::Failed(e, true)
                }
            },
            MemPlacement::Default => {
                if rc == -1 {
                    Progress::Done(NumaBuffer { len: p.len, node: -1, spanned: false })
                } else {
                    let (node, spanned): (i32, bool) = find_nodes(status.as_slice());
                    Progress::Done(NumaBuffer { len: p.len, node, spanned })
                }
            },
        }
    }

    /// The node that the pages are on, or -1 where it is unverified.
    pub fn node(&self) -> (r: i32)
        ensures
            r == self.node,
    {
        self.node
    }

    /// Whether the pages landed on more than one node.
    pub fn spanned(&self) -> (r: bool)
        ensures
            r == self.spanned,
    {
        self.spanned
    }
}

/// A placement, as it is shown for debugging.
fn fmt_placement(p: MemPlacement) -> (r: String)
    ensures
        r@ == placement_text(p),
{
    match p {
        MemPlacement::Default => "Default".to_owned(),
        MemPlacement::Bound(node) => {
            let mut out: String = "Bound(".to_owned();
            number::push_usize(&mut out, node);
            out.append(")");
            out
        },
    }
}

// ---------------------------------------------------------------------------
// The mask of a node
// ---------------------------------------------------------------------------

/// The mask that `mbind` is given: so many words, with the bit of the node set.
pub struct NodeMask {
    pub words: Vec<u64>,
    /// The number of bits in the mask.
    pub maxnode: u64,
}

/// Whether bit `k` of a mask is set.
pub open spec fn bit_set(words: Seq<u64>, word_bits: nat, k: nat) -> bool {
    (words[(k / word_bits) as int] >> ((k % word_bits) as u64)) & 1 == 1
}

proof fn lemma_one_bit(a: u64, b: u64)
    requires
        a < 64,
        b < 64,
    ensures
        ((1u64 << a) >> b) & 1 == (if a == b {
            1u64
        } else {
            0u64
        }),
{
    assert(((1u64 << a) >> b) & 1 == (if a == b {
        1u64
    } else {
        0u64
    })) by (bit_vector)
        requires
            a < 64,
            b < 64,
    ;
}

/// The mask of one node, in words of `word_bits` bits: at least one word, as
/// many as the bit of the node needs, and no other bit set.
pub fn node_mask(node: usize, word_bits: usize) -> (r: NodeMask)
    requires
        word_bits == 32 || word_bits == 64,
        node <= usize::MAX - word_bits,
    ensures
        r.words@.len() == node as int / word_bits as int + 1,
        r.maxnode == r.words@.len() * word_bits,
        node < r.maxnode,
        forall|k: nat|
            k < r.maxnode ==> (#[trigger] bit_set(r.words@, word_bits as nat, k) <==> k == node),
{
    let at: usize = node / word_bits;
    let bit: u64 = (node % word_bits) as u64;
    let mut words: Vec<u64> = Vec::new();
    let mut i: usize = 0;
    while i < at
        invariant
            i <= at,
            words@.len() == i,
            forall|j: int| 0 <= j < i ==> #[trigger] words@[j] == 0,
        decreases at - i,
    {
        words.push(0);
        i = i + 1;
    }
    words.push(1u64 << bit);
    proof {
        vstd::arithmetic::div_mod::lemma_fundamental_div_mod(node as int, word_bits as int);
        let size = word_bits as int;
        let n = at as int;
        assert((n + 1) * size == size * n + size) by (nonlinear_arith);
        assert forall|k: nat| k < (at + 1) * word_bits implies (#[trigger] bit_set(
            words@,
            word_bits as nat,
            k,
        ) <==> k == node) by {
            let w = (k / word_bits as nat) as int;
            let b = (k % word_bits as nat) as u64;
            vstd::arithmetic::div_mod::lemma_fundamental_div_mod(k as int, word_bits as int);
            assert(w <= at) by {
                if w > n {
                    assert(size * w >= size * (n + 1)) by (nonlinear_arith)
                        requires
                            w >= n + 1,
                            size > 0,
                    ;
                    assert(size * (n + 1) == (n + 1) * size) by (nonlinear_arith);
                }
            }
            if w < at {
                assert(words@[w] == 0);
                assert((0u64 >> b) & 1 == 0) by (bit_vector);
                if k == node {
                    assert(w == at);
                }
            } else {
                lemma_one_bit(bit, b);
            }
        }
    }
    let maxnode: u64 = ((at + 1) * word_bits) as u64;
    NodeMask { words, maxnode }
}

// ---------------------------------------------------------------------------
// Laws
// ---------------------------------------------------------------------------

/// How many answers an allocation still needs at most.
pub open spec fn answers_left(p: Pending) -> nat {
    match p.stage {
        Stage::Mapping => 4,
        Stage::Binding => 3,
        Stage::Touching => 2,
        Stage::Querying => 1,
    }
}

/// An allocation comes to an end: each answer brings it a stage further, and
/// what is asked for stays the same.
pub proof fn law_alloc_ends(p: Pending, answer: Answer)
    requires
        answers_stage(p, answer),
    ensures
        continued(p, answer) matches ProgressModel::Ask(q) ==> {
            &&& answers_left(q) < answers_left(p)
            &&& q.placement == p.placement
            &&& q.len == p.len
            &&& q.page == p.page
        },
        p.stage == Stage::Querying ==> !(continued(p, answer) is Ask),
{
}

/// A buffer that is bound to a node is on it, every page of it, and spans no
/// other node. A query that failed, or a page elsewhere, is a failure.
pub proof fn law_bound_is_verified(p: Pending, answer: Answer, node: usize)
    requires
        paged(p),
        answers_stage(p, answer),
        p.placement == MemPlacement::Bound(node),
    ensures
        continued(p, answer) matches ProgressModel::Done(b) ==> {
            &&& b.node == node
            &&& !b.spanned
            &&& b.len == p.len
            &&& answer matches Answer::Queried(rc, _, status) && rc != -1 && all_on(status@, node)
        },
{
    if answer is Queried {
        let status = answer->Queried_2@;
        if answer->Queried_0 != -1 && all_on(status, node) {
            assert(status.len() >= 1) by {
                let len = p.len as int;
                let page = p.page as int;
                assert(len / page >= 1) by (nonlinear_arith)
                    requires
                        page >= 1,
                        len >= page,
                ;
            }
            assert(status[0] == node);
        }
    }
}

/// Under the kernel's own placement nothing fails but the mapping. Where the
/// kernel cannot say where the pages are, the node is -1.
pub proof fn law_default_succeeds(p: Pending, answer: Answer)
    requires
        answers_stage(p, answer),
        p.placement == MemPlacement::Default,
    ensures
        continued(p, answer) is Failed <==> answer == Answer::Mapped(false),
        answer matches Answer::Queried(rc, _, status) ==> (continued(
            p,
            answer,
        ) matches ProgressModel::Done(b) && {
            &&& b.len == p.len
            &&& b.node >= -1
            &&& rc == -1 ==> b.node == -1 && !b.spanned
            &&& rc != -1 && b.node >= 0 ==> status@.contains(b.node)
            &&& rc != -1 && b.node == -1 ==> !b.spanned
        }),
{
    if answer is Queried {
        lemma_first_node(answer->Queried_2@);
    }
}

/// What was mapped is unmapped on every failure, and nothing else is.
pub proof fn law_failure_unmaps(p: Pending, answer: Answer)
    requires
        answers_stage(p, answer),
    ensures
        continued(p, answer) matches ProgressModel::Failed(_, unmap) ==> (unmap <==> p.stage
            != Stage::Mapping),
{
}

/// What became of an allocation after all the answers.
pub open spec fn settled(start: ProgressModel, answers: Seq<Answer>) -> ProgressModel
    decreases answers.len(),
{
    if answers.len() == 0 {
        start
    } else {
        match settled(start, answers.drop_last()) {
            ProgressModel::Ask(p) => continued(p, answers.last()),
            other => other,
        }
    }
}

/// Whether each answer is one to what the kernel was asked for.
pub open spec fn all_answered(start: ProgressModel, answers: Seq<Answer>) -> bool
    decreases answers.len(),
{
    answers.len() == 0 || (all_answered(start, answers.drop_last()) && (settled(
        start,
        answers.drop_last(),
    ) matches ProgressModel::Ask(p) && answers_stage(p, answers.last())))
}

/// Whatever the kernel answers, an allocation ends after four answers at most.
/// A buffer that comes of it is made of the whole pages that hold what was
/// asked for. One that is to be bound is there only where its node is online,
/// and is then on that node alone; one that is not to be bound fails only where
/// it cannot be mapped.
pub proof fn law_allocation(
    placement: MemPlacement,
    bytes: nat,
    online: Seq<usize>,
    page: usize,
    answers: Seq<Answer>,
)
    requires
        bytes >= 1,
        can_be_placed(placement, online) ==> pages_fit(bytes, page),
        all_answered(begun(placement, bytes, online, page), answers),
    ensures
        match settled(begun(placement, bytes, online, page), answers) {
            ProgressModel::Ask(p) => {
                &&& answers.len() + answers_left(p) <= 4
                &&& paged(p)
                &&& p.placement == placement
                &&& p.len == whole_pages(bytes, page as nat)
                &&& p.page == page
                &&& placement matches MemPlacement::Bound(node) ==> online.contains(node)
            },
            ProgressModel::Done(b) => {
                &&& b.len == whole_pages(bytes, page as nat)
                &&& b.len >= bytes
                &&& placement matches MemPlacement::Bound(node) ==> online.contains(node) && b.node
                    == node && !b.spanned
            },
            ProgressModel::Failed(_, _) => placement == MemPlacement::Default ==> answers
                =~= seq![Answer::Mapped(false)],
        },
    decreases answers.len(),
{
    if can_be_placed(placement, online) {
        law_whole_pages(bytes, page as nat);
    }
    if answers.len() > 0 {
        let before = answers.drop_last();
        let answer = answers.last();
        law_allocation(placement, bytes, online, page, before);
        let p = settled(begun(placement, bytes, online, page), before)->Ask_0;
        law_alloc_ends(p, answer);
        match placement {
            MemPlacement::Bound(node) => {
                law_bound_is_verified(p, answer, node);
            },
            MemPlacement::Default => {
                law_default_succeeds(p, answer);
            },
        }
    }
}

/// The node of a cpu is one that the number of nodes covers, whatever the
/// files say.
pub proof fn law_cpu_node_covered(sysfs: Sysfs, cpu: usize)
    ensures
        cpu_node(sysfs, cpu) < numa::node_count(sysfs.online_ids()),
        owner(sysfs, sysfs.online_ids(), cpu) is Some ==> sysfs.online_ids().contains(
            cpu_node(sysfs, cpu),
        ),
{
    let online = sysfs.online_ids();
    lemma_owner(sysfs, online, cpu);
    if owner(sysfs, online, cpu) is Some {
        let node = cpu_node(sysfs, cpu);
        numa::lemma_highest(online);
        let k = choose|k: int| 0 <= k < online.len() && online[k] == node;
        assert(online[k] <= numa::highest(online));
    }
}

proof fn lemma_owner(sysfs: Sysfs, nodes: Seq<usize>, cpu: usize)
    ensures
        owner(sysfs, nodes, cpu) matches Some(node) ==> nodes.contains(node),
    decreases nodes.len(),
{
    if nodes.len() > 0 {
        let d = nodes.drop_last();
        lemma_owner(sysfs, d, cpu);
        assert(nodes[nodes.len() - 1] == nodes.last());
        if owner(sysfs, d, cpu) is Some {
            let node = owner(sysfs, d, cpu)->0;
            let k = choose|k: int| 0 <= k < d.len() && d[k] == node;
            assert(nodes[k] == node);
        }
    }
}

/// A cpu has the node that lists it, where one online node does; node 0 where
/// none does.
pub proof fn law_cpu_node(sysfs: Sysfs, cpu: usize, node: usize)
    ensures
        sysfs.online_ids().contains(node) && sysfs.cpus_of(node).contains(cpu) && (forall|n: usize|
            n != node && #[trigger] sysfs.online_ids().contains(n) ==> !sysfs.cpus_of(n).contains(
                cpu,
            )) ==> cpu_node(sysfs, cpu) == node,
        (forall|n: usize| #[trigger]
            sysfs.online_ids().contains(n) ==> !sysfs.cpus_of(n).contains(cpu)) ==> cpu_node(
            sysfs,
            cpu,
        ) == 0,
{
    let online = sysfs.online_ids();
    lemma_owner_lists(sysfs, online, cpu);
    lemma_owner(sysfs, online, cpu);
}

proof fn lemma_owner_lists(sysfs: Sysfs, nodes: Seq<usize>, cpu: usize)
    ensures
        owner(sysfs, nodes, cpu) matches Some(n) ==> sysfs.cpus_of(n).contains(cpu),
        owner(sysfs, nodes, cpu) is None ==> forall|n: usize| #[trigger]
            nodes.contains(n) ==> !sysfs.cpus_of(n).contains(cpu),
    decreases nodes.len(),
{
    if nodes.len() > 0 {
        let d = nodes.drop_last();
        lemma_owner_lists(sysfs, d, cpu);
        if owner(sysfs, nodes, cpu) is None {
            assert forall|n: usize| #[trigger] nodes.contains(n) implies !sysfs.cpus_of(
                n,
            ).contains(cpu) by {
                let k = choose|k: int| 0 <= k < nodes.len() && nodes[k] == n;
                if k < d.len() {
                    assert(d[k] == n);
                    assert(d.contains(n));
                }
            }
        }
    }
}

/// A line states the memory in kB that stands before its last word, whatever
/// comes before `MemTotal:` and however much white space is between.
pub proof fn law_meminfo_line(
    start: Seq<char>,
    gap: Seq<char>,
    kb: u64,
    white: Seq<char>,
    unit: Seq<char>,
    end: Seq<char>,
)
    requires
        gap.len() > 0 && text::all_white(gap),
        white.len() > 0 && text::all_white(white),
        text::all_white(end),
        unit.len() > 0,
        forall|i: int| 0 <= i < unit.len() ==> !text::is_white(#[trigger] unit[i]),
    ensures
        line_kb(
            start + "MemTotal:"@ + gap + number::dec(kb as nat) + white + unit + end,
        ) == Some(kb),
{
    let label = start + "MemTotal:"@;
    let d = number::dec(kb as nat);
    let stated = label + gap + d;
    let line = stated + white + unit + end;
    reveal_strlit("MemTotal:");
    number::lemma_dec_digits(kb as nat);
    number::law_dec_reads_back(kb as nat);
    assert forall|i: int| 0 <= i < d.len() implies !text::is_white(#[trigger] d[i]) by {
        assert(number::is_digit(d[i]));
    }
    let none = Seq::<char>::empty();
    text::law_words(label, gap, d, none);
    assert(label + gap + d + none =~= stated);
    text::law_words(stated, white, unit, end);
    let w = text::words(line);
    assert(w.len() >= 2);
    assert(w[w.len() - 2] == d);
    let at = start.len() as int;
    assert(line.subrange(at, at + "MemTotal:"@.len()) =~= "MemTotal:"@);
    assert(text::has_text(line, "MemTotal:"@));
    assert(start + "MemTotal:"@ + gap + number::dec(kb as nat) + white + unit + end =~= line);
}

/// The memory of a node is that of the first line that states any; a line
/// without `MemTotal:` states none.
pub proof fn law_meminfo_lines(before: Seq<Seq<char>>, line: Seq<char>, after: Seq<Seq<char>>)
    requires
        forall|i: int| 0 <= i < before.len() ==> line_kb(#[trigger] before[i]) is None,
        line_kb(line) is Some,
    ensures
        lines_kb(before.push(line) + after) == line_kb(line),
        lines_kb(before) is None,
    decreases after.len(),
{
    lemma_no_kb(before);
    assert(before.push(line).drop_last() =~= before);
    let all = before.push(line) + after;
    assert(all.take(before.len() as int + 1) =~= before.push(line));
    lemma_lines_kb_some(all, before.len() as int + 1);
}

proof fn lemma_no_kb(lines: Seq<Seq<char>>)
    requires
        forall|i: int| 0 <= i < lines.len() ==> line_kb(#[trigger] lines[i]) is None,
    ensures
        lines_kb(lines) is None,
    decreases lines.len(),
{
    if lines.len() > 0 {
        let d = lines.drop_last();
        assert forall|i: int| 0 <= i < d.len() implies line_kb(#[trigger] d[i]) is None by {
            assert(d[i] == lines[i]);
        }
        lemma_no_kb(d);
        assert(line_kb(lines[lines.len() - 1]) is None);
    }
}

/// The memory of a node in bytes is what its file states in kB, times 1024.
pub proof fn law_node_bytes(sysfs: Sysfs, node: usize, files: numa::NodeFiles, meminfo: String)
    requires
        numa::files_of(sysfs.nodes@, node) == Some(files),
        files.meminfo == Some(meminfo),
    ensures
        lines_kb(text::pieces(meminfo@, '\n')) matches Some(kb) ==> node_bytes(sysfs, node) == kb
            * 1024,
        lines_kb(text::pieces(meminfo@, '\n')) is None ==> node_bytes(sysfs, node) == 0,
{
}

/// A node whose memory could not be read is taken to have none.
pub proof fn law_no_bytes(sysfs: Sysfs, node: usize)
    requires
        numa::files_of(sysfs.nodes@, node) matches Some(f) ==> f.meminfo is None,
    ensures
        node_bytes(sysfs, node) == 0,
{
}

/// A buffer that is bound is there just where the kernel could say where its
/// pages are and every page is on the node; one page elsewhere makes it fail.
pub proof fn law_every_page_on_the_node(
    p: Pending,
    rc: i64,
    error: Seq<char>,
    status: Seq<i32>,
    node: usize,
)
    requires
        p.placement == MemPlacement::Bound(node),
    ensures
        queried(p, rc, error, status) is Done <==> rc != -1 && forall|i: int|
            0 <= i < status.len() ==> #[trigger] status[i] == node,
        queried(p, rc, error, status) is Done || queried(p, rc, error, status) is Failed,
        rc == -1 ==> queried(p, rc, error, status) == ProgressModel::Failed(
            "move_pages query failed: "@ + error + "; cannot verify placement on node "@
                + number::dec(node as nat),
            true,
        ),
        rc != -1 && !all_on(status, node) ==> queried(p, rc, error, status)
            == ProgressModel::Failed(
            "buffer requested on node "@ + number::dec(node as nat)
                + " but did not land there (move_pages status="@ + text::listing(
                status_texts(status),
            ) + ")"@,
            true,
        ),
{
}

/// The node that a buffer of the kernel's own placement is said to be on is
/// that of the first page whose node is known; -1 where none is.
pub proof fn law_first_node(status: Seq<i32>, k: int)
    ensures
        0 <= k < status.len() && status[k] >= 0 && (forall|i: int|
            0 <= i < k ==> #[trigger] status[i] < 0) ==> first_node(status) == status[k],
        (forall|i: int| 0 <= i < status.len() ==> #[trigger] status[i] < 0) ==> first_node(status)
            == -1,
    decreases status.len(),
{
    lemma_first_node(status);
    if status.len() > 0 {
        let d = status.drop_last();
        if 0 <= k < status.len() && status[k] >= 0 && (forall|i: int|
            0 <= i < k ==> #[trigger] status[i] < 0) {
            if k < d.len() {
                assert(d[k] == status[k]);
                assert forall|i: int| 0 <= i < k implies #[trigger] d[i] < 0 by {
                    assert(d[i] == status[i]);
                }
                law_first_node(d, k);
            } else {
                assert forall|i: int| 0 <= i < d.len() implies #[trigger] d[i] < 0 by {
                    assert(d[i] == status[i]);
                }
                law_first_node(d, 0);
            }
        }
    }
}

/// What the kernel says of a buffer of its own placement: on one node or more
/// than one, by the pages whose node is known.
pub proof fn law_spanned(p: Pending, rc: i64, error: Seq<char>, status: Seq<i32>)
    requires
        p.placement == MemPlacement::Default,
        rc != -1,
    ensures
        queried(p, rc, error, status) matches ProgressModel::Done(b) && b.node == first_node(status)
            && b.len == p.len && (b.spanned <==> exists|i: int, j: int|
            0 <= i < status.len() && 0 <= j < status.len() && #[trigger] status[i] >= 0
                && #[trigger] status[j] >= 0 && status[i] != status[j]),
{
}

/// The order of the questions: a buffer is mapped, then bound where it is to be
/// bound, then touched, and only then its pages are asked for.
pub proof fn law_questions_in_order(p: Pending, error: String)
    ensures
        continued(p, Answer::Mapped(true)) == ProgressModel::Ask(
            Pending {
                stage: if p.placement is Bound {
                    Stage::Binding
                } else {
                    Stage::Touching
                },
                ..p
            },
        ),
        continued(p, Answer::Bound(0, error)) == ProgressModel::Ask(
            Pending { stage: Stage::Touching, ..p },
        ),
        continued(p, Answer::Touched) == ProgressModel::Ask(
            Pending { stage: Stage::Querying, ..p },
        ),
        p.placement is Bound ==> continued(p, Answer::Bound(-1i64, error)) is Failed,
        continued(p, Answer::Mapped(false)) is Failed,
{
}

/// An allocation begins with the request to map whole pages: enough for the
/// bytes, and none too many.
pub proof fn law_begun(placement: MemPlacement, bytes: nat, online: Seq<usize>, page: usize)
    requires
        can_be_placed(placement, online),
        pages_fit(bytes, page),
        bytes >= 1,
    ensures
        begun(placement, bytes, online, page) matches ProgressModel::Ask(p) && p.stage
            == Stage::Mapping && p.placement == placement && p.page == page && bytes <= p.len
            < bytes + page && p.len as int % page as int == 0,
{
    law_whole_pages(bytes, page as nat);
}

/// Where more than one online node lists a cpu, the cpu has the last of them.
pub proof fn law_cpu_node_last(sysfs: Sysfs, cpu: usize, k: int)
    requires
        0 <= k < sysfs.online_ids().len(),
        sysfs.cpus_of(sysfs.online_ids()[k]).contains(cpu),
        forall|i: int|
            k < i < sysfs.online_ids().len() ==> !sysfs.cpus_of(
                #[trigger] sysfs.online_ids()[i],
            ).contains(cpu),
    ensures
        cpu_node(sysfs, cpu) == sysfs.online_ids()[k],
{
    lemma_owner_is_last(sysfs, sysfs.online_ids(), cpu, k);
}

proof fn lemma_owner_is_last(sysfs: Sysfs, nodes: Seq<usize>, cpu: usize, k: int)
    requires
        0 <= k < nodes.len(),
        sysfs.cpus_of(nodes[k]).contains(cpu),
        forall|i: int|
            k < i < nodes.len() ==> !sysfs.cpus_of(#[trigger] nodes[i]).contains(cpu),
    ensures
        owner(sysfs, nodes, cpu) == Some(nodes[k]),
    decreases nodes.len(),
{
    if k < nodes.len() - 1 {
        let d = nodes.drop_last();
        assert(!sysfs.cpus_of(nodes[nodes.len() - 1]).contains(cpu));
        assert forall|i: int| k < i < d.len() implies !sysfs.cpus_of(#[trigger] d[i]).contains(
            cpu,
        ) by {
            assert(d[i] == nodes[i]);
        }
        lemma_owner_is_last(sysfs, d, cpu, k);
    }
}

/// A line states no memory where it has no `MemTotal:`, or where the word
/// before the last one is no number.
pub proof fn law_meminfo_silent(line: Seq<char>)
    ensures
        (forall|i: int|
            0 <= i <= line.len() - 9 ==> #[trigger] line.subrange(i, i + 9) != "MemTotal:"@)
            ==> line_kb(line) is None,
        text::words(line).len() < 2 ==> line_kb(line) is None,
        text::words(line).len() >= 2 && number::u64_of(
            text::words(line)[text::words(line).len() - 2],
        ) is None ==> line_kb(line) is None,
{
    reveal_strlit("MemTotal:");
    if text::has_text(line, "MemTotal:"@) {
        let n = "MemTotal:"@.len() as int;
        assert(n == 9);
    }
}

/// What is said where the kernel refuses: of a mapping its bytes and the
/// placement, with nothing to unmap; of a binding the node and the error, with
/// the buffer to unmap.
pub proof fn law_refusals(p: Pending, error: String, node: usize)
    ensures
        p.placement == MemPlacement::Default ==> continued(p, Answer::Mapped(false))
            == ProgressModel::Failed(
            "mmap of "@ + number::dec(p.len as nat) + " bytes failed (placement Default)"@,
            false,
        ),
        p.placement == MemPlacement::Bound(node) ==> continued(p, Answer::Mapped(false))
            == ProgressModel::Failed(
            "mmap of "@ + number::dec(p.len as nat) + " bytes failed (placement Bound("@
                + number::dec(node as nat) + "))"@,
            false,
        ),
        p.placement == MemPlacement::Bound(node) ==> continued(p, Answer::Bound(-1i64, error))
            == ProgressModel::Failed(
            "mbind(MPOL_BIND, node "@ + number::dec(node as nat) + ") failed: "@ + error@,
            true,
        ),
{
    reveal_strlit(" bytes failed (placement Default)");
    reveal_strlit(" bytes failed (placement Bound(");
    reveal_strlit(" bytes failed (placement ");
    reveal_strlit("Default");
    reveal_strlit("Bound(");
    reveal_strlit(")");
    reveal_strlit("))");
    let head = "mmap of "@ + number::dec(p.len as nat);
    assert(head + " bytes failed (placement "@ + "Default"@ + ")"@ =~= head
        + " bytes failed (placement Default)"@);
    assert(head + " bytes failed (placement "@ + ("Bound("@ + number::dec(node as nat) + ")"@)
        + ")"@ =~= head + " bytes failed (placement Bound("@ + number::dec(node as nat)
        + "))"@);
}

} // verus!
